//! What is rendered, under which file names, and what is said of it in the end.

use crate::encode::Codec;
use crate::log::Flight;
use crate::log::FlightView;
use crate::text::decimal;
use crate::text::law_decimal_injective;
use crate::text::lemma_decimal_digits;
use crate::text::push_decimal;
use crate::text::push_text;
use vstd::prelude::*;

verus! {

/// One flight to render.
#[derive(Debug)]
pub struct Job {
    /// The place of its file among the input files.
    pub file: usize,
    pub flight: Flight,
    /// Whether the output carries the flight's number: only where the file holds
    /// more than one flight.
    pub numbered: bool,
}

/// What a job says.
pub struct JobView {
    pub file: int,
    pub flight: FlightView,
    pub numbered: bool,
}

impl View for Job {
    type V = JobView;

    open spec fn view(&self) -> JobView {
        JobView { file: self.file as int, flight: self.flight@, numbered: self.numbered }
    }
}

/// A job is seen by its file, its flight, and whether it is numbered.
pub proof fn law_jobs_are_seen_whole(job: Job)
    ensures
        job@.file == job.file,
        job@.flight.index == job.flight.index,
        job@.flight.samples == job.flight.samples@,
        job@.numbered == job.numbered,
{
}

/// What each of `jobs` says.
pub open spec fn job_views(jobs: Seq<Job>) -> Seq<JobView> {
    jobs.map_values(|job: Job| job@)
}

/// The jobs for the flights of one file, in their order.
pub open spec fn jobs_of(file: int, flights: Seq<Flight>) -> Seq<JobView> {
    flights.map_values(
        |flight: Flight| JobView { file, flight: flight@, numbered: flights.len() > 1 },
    )
}

/// Adds the flights of a file to the work list.
pub fn add_jobs(jobs: &mut Vec<Job>, file: usize, flights: Vec<Flight>)
    ensures
        job_views(final(jobs)@) == job_views(old(jobs)@) + jobs_of(file as int, flights@),
        final(jobs)@.len() == old(jobs)@.len() + flights@.len(),
        forall|k: int| 0 <= k < old(jobs)@.len() ==> #[trigger] final(jobs)@[k] == old(jobs)@[k],
        forall|k: int|
            0 <= k < flights@.len() ==> {
                let job = #[trigger] final(jobs)@[old(jobs)@.len() + k];
                &&& job.file == file
                &&& job.flight == flights@[k]
                &&& job.numbered <==> flights@.len() > 1
            },
{
    let numbered = flights.len() > 1;
    let ghost before = job_views(jobs@);
    let ghost wanted = jobs_of(file as int, flights@);
    let ghost all = flights@;
    let ghost given = jobs@;
    for flight in it: flights
        invariant
            it.seq() == all,
            jobs@.len() == given.len() + it.index(),
            forall|k: int| 0 <= k < given.len() ==> #[trigger] jobs@[k] == given[k],
            forall|k: int|
                given.len() <= k < jobs@.len() ==> {
                    let job = #[trigger] jobs@[k];
                    &&& job.file == file
                    &&& job.flight == all[k - given.len()]
                    &&& job.numbered <==> all.len() > 1
                },
            wanted == jobs_of(file as int, all),
            numbered == (all.len() > 1),
            job_views(jobs@) == before + wanted.take(it.index()),
    {
        let ghost earlier = jobs@;
        let ghost k = it.index();
        jobs.push(Job { file, flight, numbered });
        assert(job_views(jobs@) =~= job_views(earlier).push(wanted[k]));
        assert(wanted.take(k + 1) =~= wanted.take(k).push(wanted[k]));
        assert(job_views(jobs@) =~= before + wanted.take(k + 1));
    }
    assert(wanted.take(all.len() as int) =~= wanted);
}

/// What is appended to the name of a flight's output: `_` and its number, or nothing.
pub open spec fn suffix(index: nat, numbered: bool) -> Seq<char> {
    if numbered {
        seq!['_'] + decimal(index)
    } else {
        seq![]
    }
}

/// The name of a flight's output, without an extension.
pub open spec fn flight_name(stem: Seq<char>, index: nat, numbered: bool) -> Seq<char> {
    stem + suffix(index, numbered)
}

/// The name of a flight's video.
pub open spec fn video_name(stem: Seq<char>, index: nat, numbered: bool, codec: Codec) -> Seq<char> {
    flight_name(stem, index, numbered) + seq!['.'] + codec.extension()
}

/// The name of the picture number `k` of a flight.
pub open spec fn picture_name(stem: Seq<char>, index: nat, numbered: bool, k: nat) -> Seq<char> {
    flight_name(stem, index, numbered) + "_debug"@ + decimal(k) + ".png"@
}

/// The name of a flight's output, without an extension.
pub fn name_flight(stem: &str, index: usize, numbered: bool) -> (res: String)
    ensures
        res@ == flight_name(stem@, index as nat, numbered),
        !numbered ==> res@ == stem@,
        numbered ==> res@ == stem@ + seq!['_'] + decimal(index as nat),
{
    let mut res = String::new();
    push_text(&mut res, stem);
    if numbered {
        res.push('_');
        push_decimal(&mut res, index as u64);
    }
    assert(res@ =~= flight_name(stem@, index as nat, numbered));
    assert(numbered ==> res@ =~= stem@ + seq!['_'] + decimal(index as nat));
    res
}

/// The name of a flight's video.
pub fn name_video(stem: &str, index: usize, numbered: bool, codec: Codec) -> (res: String)
    ensures
        res@ == video_name(stem@, index as nat, numbered, codec),
        !numbered && codec is Webm ==> res@ == stem@ + ".webm"@,
        !numbered && !(codec is Webm) ==> res@ == stem@ + ".mov"@,
        numbered && codec is Webm ==> res@ == stem@ + seq!['_'] + decimal(index as nat) + ".webm"@,
        numbered && !(codec is Webm) ==> res@ == stem@ + seq!['_'] + decimal(index as nat)
            + ".mov"@,
{
    let mut res = name_flight(stem, index, numbered);
    res.push('.');
    push_text(&mut res, codec.ext());
    assert(res@ =~= video_name(stem@, index as nat, numbered, codec));
    proof {
        reveal_strlit("mov");
        reveal_strlit(".mov");
        reveal_strlit("webm");
        reveal_strlit(".webm");
        assert(".mov"@ =~= seq!['.'] + "mov"@);
        assert(".webm"@ =~= seq!['.'] + "webm"@);
        let name = flight_name(stem@, index as nat, numbered);
        assert(name + seq!['.'] + codec.extension() =~= name + (seq!['.'] + codec.extension()));
        assert(numbered ==> name =~= stem@ + seq!['_'] + decimal(index as nat));
        assert(!numbered ==> name =~= stem@);
    }
    res
}

/// The name of the picture number `k` of a flight.
pub fn name_picture(stem: &str, index: usize, numbered: bool, k: usize) -> (res: String)
    ensures
        res@ == picture_name(stem@, index as nat, numbered, k as nat),
        !numbered ==> res@ == stem@ + "_debug"@ + decimal(k as nat) + ".png"@,
        numbered ==> res@ == stem@ + seq!['_'] + decimal(index as nat) + "_debug"@ + decimal(
            k as nat,
        ) + ".png"@,
{
    let mut res = name_flight(stem, index, numbered);
    push_text(&mut res, "_debug");
    push_decimal(&mut res, k as u64);
    push_text(&mut res, ".png");
    assert(res@ =~= picture_name(stem@, index as nat, numbered, k as nat));
    assert(numbered ==> flight_name(stem@, index as nat, numbered) =~= stem@ + seq!['_'] + decimal(
        index as nat,
    ));
    res
}

/// The videos of the flights of one file have different names.
pub proof fn law_videos_have_names_of_their_own(
    stem: Seq<char>,
    a: nat,
    b: nat,
    codec: Codec,
)
    requires
        video_name(stem, a, true, codec) == video_name(stem, b, true, codec),
    ensures
        a == b,
{
    let tail = seq!['.'] + codec.extension();
    let head = stem + seq!['_'];
    let one = video_name(stem, a, true, codec);
    let two = video_name(stem, b, true, codec);
    assert(one =~= head + decimal(a) + tail);
    assert(two =~= head + decimal(b) + tail);
    assert(one.len() == head.len() + decimal(a).len() + tail.len());
    assert(one.subrange(head.len() as int, one.len() - tail.len()) =~= decimal(a));
    assert(two.subrange(head.len() as int, two.len() - tail.len()) =~= decimal(b));
    law_decimal_injective(a, b);
}

/// Two numerals, each followed by a character that is no digit, are the same where
/// the texts are.
proof fn lemma_numeral_ends(a: nat, b: nat, s: Seq<char>, t: Seq<char>)
    requires
        s.len() > 0,
        t.len() > 0,
        !('0' <= s[0] <= '9'),
        !('0' <= t[0] <= '9'),
        decimal(a) + s == decimal(b) + t,
    ensures
        a == b,
        s == t,
{
    let x = decimal(a);
    let y = decimal(b);
    let text = x + s;
    lemma_decimal_digits(a);
    lemma_decimal_digits(b);
    if x.len() < y.len() {
        assert(text[x.len() as int] == s[0]);
        assert((y + t)[x.len() as int] == y[x.len() as int]);
    } else if y.len() < x.len() {
        assert((y + t)[y.len() as int] == t[0]);
        assert(text[y.len() as int] == x[y.len() as int]);
    }
    assert(x.len() == y.len());
    assert(text.take(x.len() as int) =~= x);
    assert((y + t).take(y.len() as int) =~= y);
    assert(text.skip(x.len() as int) =~= s);
    assert((y + t).skip(y.len() as int) =~= t);
    law_decimal_injective(a, b);
}

/// The pictures of the flights of one file have different names, and so have the
/// pictures of one flight.
pub proof fn law_pictures_have_names_of_their_own(
    stem: Seq<char>,
    a: nat,
    j: nat,
    b: nat,
    k: nat,
    numbered: bool,
)
    requires
        picture_name(stem, a, numbered, j) == picture_name(stem, b, numbered, k),
    ensures
        numbered ==> a == b,
        j == k,
{
    reveal_strlit("_debug");
    reveal_strlit(".png");
    let s = decimal(j) + ".png"@;
    let t = decimal(k) + ".png"@;
    let one = picture_name(stem, a, numbered, j);
    let two = picture_name(stem, b, numbered, k);
    if numbered {
        let head = stem + seq!['_'];
        let x = "_debug"@ + s;
        let y = "_debug"@ + t;
        assert(one =~= head + (decimal(a) + x));
        assert(two =~= head + (decimal(b) + y));
        assert(one.skip(head.len() as int) =~= decimal(a) + x);
        assert(two.skip(head.len() as int) =~= decimal(b) + y);
        lemma_numeral_ends(a, b, x, y);
        assert(x.skip(6) =~= s);
        assert(y.skip(6) =~= t);
    } else {
        let head = stem + "_debug"@;
        assert(one =~= head + s);
        assert(two =~= head + t);
        assert(one.skip(head.len() as int) =~= s);
        assert(two.skip(head.len() as int) =~= t);
    }
    lemma_numeral_ends(j, k, ".png"@, ".png"@);
}

/// What to say in the end, where `failed` flights could not be rendered.
pub open spec fn summary(failed: nat) -> Option<Seq<char>> {
    if failed > 0 {
        Some(decimal(failed) + " log(s) failed"@)
    } else {
        None
    }
}

/// What to say in the end, where `failed` flights could not be rendered: nothing,
/// if there are none.
pub fn failure_summary(failed: usize) -> (res: Option<String>)
    ensures
        res is Some <==> summary(failed as nat) is Some,
        res matches Some(text) ==> summary(failed as nat) == Some(text@),
        res is None <==> failed == 0,
        res matches Some(text) ==> text@ == decimal(failed as nat) + " log(s) failed"@,
{
    if failed == 0 {
        return None;
    }
    let mut res = String::new();
    push_decimal(&mut res, failed as u64);
    push_text(&mut res, " log(s) failed");
    assert(res@ =~= decimal(failed as nat) + " log(s) failed"@);
    Some(res)
}

} // verus!
