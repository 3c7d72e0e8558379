use stickoverlay::encode::Codec;
use stickoverlay::log::Flight;
use stickoverlay::log::Sample;
use stickoverlay::output::add_jobs;
use stickoverlay::output::failure_summary;
use stickoverlay::output::name_flight;
use stickoverlay::output::name_picture;
use stickoverlay::output::name_video;
use stickoverlay::output::Job;

fn flight(index: usize, t_us: u64) -> Flight {
    let sample = Sample { t_us, roll: Some(1), pitch: Some(2), yaw: Some(3), throttle: Some(1000) };
    Flight { index, samples: vec![sample] }
}

#[test]
fn only_one_of_several_flights_is_numbered() {
    let mut jobs: Vec<Job> = Vec::new();
    add_jobs(&mut jobs, 4, vec![flight(2, 10)]);
    add_jobs(&mut jobs, 5, vec![flight(1, 20), flight(3, 30)]);
    add_jobs(&mut jobs, 6, vec![]);
    let seen: Vec<(usize, usize, u64, bool)> = jobs
        .iter()
        .map(|job| (job.file, job.flight.index, job.flight.samples[0].t_us, job.numbered))
        .collect();
    assert_eq!(seen, vec![(4, 2, 10, false), (5, 1, 20, true), (5, 3, 30, true)]);
}

#[test]
fn videos_are_named_after_the_file() {
    assert_eq!(name_flight("LOG00012", 1, false), "LOG00012");
    assert_eq!(name_flight("LOG00012", 12, true), "LOG00012_12");
    assert_eq!(name_video("LOG00012", 1, false, Codec::Qtrle), "LOG00012.mov");
    assert_eq!(name_video("LOG00012", 2, true, Codec::Webm), "LOG00012_2.webm");
}

#[test]
fn pictures_are_counted() {
    assert_eq!(name_picture("a", 1, false, 0), "a_debug0.png");
    assert_eq!(name_picture("a", 3, true, 11), "a_3_debug11.png");
}

#[test]
fn names_of_one_file_do_not_clash() {
    let mut names: Vec<String> = Vec::new();
    for index in 1..40 {
        names.push(name_video("a_1", index, true, Codec::Prores4444));
        for k in 0..15 {
            names.push(name_picture("a_1", index, true, k));
        }
    }
    let count = names.len();
    names.sort();
    names.dedup();
    assert_eq!(names.len(), count);
}

#[test]
fn failures_are_counted() {
    assert_eq!(failure_summary(0), None);
    assert_eq!(failure_summary(1), Some("1 log(s) failed".to_string()));
    assert_eq!(failure_summary(23), Some("23 log(s) failed".to_string()));
}
