//! Finding the samples around a point in time, on the real timestamps of a log
//! whose samples are not evenly spaced.

use crate::log::Sample;
use vstd::prelude::*;

verus! {

/// What a flight says of one point in time.
#[derive(Clone, Copy, Debug, PartialEq, Eq)]
pub enum Interp<V> {
    /// The last sample has been reached: it holds from there on.
    Hold(Sample<V>),
    /// The values run in a straight line from `a` to `b`, which are `span_us`
    /// apart. Before `a` the line is level, and so it is where the span is 0.
    Between { t_us: u64, a: Sample<V>, b: Sample<V>, span_us: u64 },
}

/// Where a cursor at `cursor` stops on its way to `t_us`: it moves on as long as
/// the next sample is not later than that.
pub open spec fn advanced<V>(samples: Seq<Sample<V>>, cursor: int, t_us: int) -> int
    decreases samples.len() - cursor,
{
    if cursor + 1 < samples.len() && samples[cursor + 1].t_us <= t_us {
        advanced(samples, cursor + 1, t_us)
    } else {
        cursor
    }
}

/// A cursor passes every sample that is not later than `t_us`, one after the other, and stops
/// in front of the first one that is later, or on the last one of all.
pub proof fn law_cursor_stops<V>(samples: Seq<Sample<V>>, cursor: int, t_us: int)
    requires
        0 <= cursor < samples.len(),
    ensures
        cursor <= advanced(samples, cursor, t_us) < samples.len(),
        forall|j: int|
            cursor < j <= advanced(samples, cursor, t_us) ==> (#[trigger] samples[j]).t_us <= t_us,
        advanced(samples, cursor, t_us) + 1 < samples.len() ==> samples[advanced(
            samples,
            cursor,
            t_us,
        ) + 1].t_us > t_us,
    decreases samples.len() - cursor,
{
    if cursor + 1 < samples.len() && samples[cursor + 1].t_us <= t_us {
        law_cursor_stops(samples, cursor + 1, t_us);
    }
}

/// Moves `cursor` on to `t_us`.
pub fn advance<V>(samples: &[Sample<V>], cursor: &mut usize, t_us: u64)
    requires
        *old(cursor) < samples@.len(),
    ensures
        *final(cursor) == advanced(samples@, *old(cursor) as int, t_us as int),
        *old(cursor) <= *final(cursor) < samples@.len(),
        forall|j: int| *old(cursor) < j <= *final(cursor) ==> (#[trigger] samples@[j]).t_us <= t_us,
        *final(cursor) + 1 < samples@.len() ==> samples@[*final(cursor) + 1].t_us > t_us,
{
    proof {
        law_cursor_stops(samples@, *cursor as int, t_us as int);
    }
    let n: usize = samples.len();
    let mut at: usize = *cursor;
    let ghost start = at;
    while at + 1 < n && samples[at + 1].t_us <= t_us
        invariant
            start <= at < n == samples@.len(),
            advanced(samples@, start as int, t_us as int) == advanced(
                samples@,
                at as int,
                t_us as int,
            ),
        decreases n - at,
    {
        at += 1;
    }
    *cursor = at;
}

/// What `samples` say of `t_us`, with the cursor at `cursor` by then.
pub open spec fn interpolation<V>(samples: Seq<Sample<V>>, cursor: int, t_us: u64) -> Interp<V> {
    if cursor + 1 < samples.len() {
        Interp::Between {
            t_us,
            a: samples[cursor],
            b: samples[cursor + 1],
            span_us: (samples[cursor + 1].t_us - samples[cursor].t_us) as u64,
        }
    } else {
        Interp::Hold(samples[cursor])
    }
}

/// Whether time does not run backwards from the sample at `cursor` to the next.
pub open spec fn forward_at<V>(samples: Seq<Sample<V>>, cursor: int) -> bool {
    cursor + 1 < samples.len() ==> samples[cursor].t_us <= samples[cursor + 1].t_us
}

/// What `samples` say of `t_us`, with the cursor at `cursor` by then.
pub fn bracket<V: Copy>(samples: &[Sample<V>], cursor: usize, t_us: u64) -> (res: Interp<V>)
    requires
        cursor < samples@.len(),
        forward_at(samples@, cursor as int),
    ensures
        res == interpolation(samples@, cursor as int, t_us),
        cursor + 1 < samples@.len() ==> (res matches Interp::Between { t_us: t, a, b, span_us } && t
            == t_us && a == samples@[cursor as int] && b == samples@[cursor + 1] && a.t_us + span_us
            == b.t_us),
        cursor + 1 >= samples@.len() ==> res == Interp::Hold(samples@[cursor as int]),
{
    let a = samples[cursor];
    if cursor + 1 >= samples.len() {
        return Interp::Hold(a);
    }
    let b = samples[cursor + 1];
    Interp::Between { t_us, a, b, span_us: b.t_us - a.t_us }
}

/// What `samples` say of `t_us`, a point in time in whole microseconds. `cursor`
/// moves on and never back: it starts at 0 for the first and smallest `t_us`.
pub fn interp_at<V: Copy>(samples: &[Sample<V>], cursor: &mut usize, t_us: u64) -> (res: Interp<V>)
    requires
        *old(cursor) < samples@.len(),
        forward_at(samples@, advanced(samples@, *old(cursor) as int, t_us as int)),
    ensures
        *final(cursor) == advanced(samples@, *old(cursor) as int, t_us as int),
        *old(cursor) <= *final(cursor) < samples@.len(),
        res == interpolation(samples@, *final(cursor) as int, t_us),
        forall|j: int| *old(cursor) < j <= *final(cursor) ==> (#[trigger] samples@[j]).t_us <= t_us,
        *final(cursor) + 1 < samples@.len() ==> samples@[*final(cursor) + 1].t_us > t_us,
        *final(cursor) + 1 < samples@.len() ==> (res matches Interp::Between {
            t_us: t,
            a,
            b,
            span_us,
        } && t == t_us && a == samples@[*final(cursor) as int] && b == samples@[*final(cursor) + 1]
            && a.t_us + span_us == b.t_us),
        *final(cursor) + 1 >= samples@.len() ==> res == Interp::Hold(
            samples@[*final(cursor) as int],
        ),
{
    advance(samples, cursor, t_us);
    bracket(samples, *cursor, t_us)
}

/// A cursor on a sample that is not later than `t_us` stops between two samples
/// with `t_us` in between, or on the last one.
pub proof fn law_cursor_brackets<V>(samples: Seq<Sample<V>>, cursor: int, t_us: int)
    requires
        0 <= cursor < samples.len(),
        samples[cursor].t_us <= t_us,
    ensures
        cursor <= advanced(samples, cursor, t_us) < samples.len(),
        samples[advanced(samples, cursor, t_us)].t_us <= t_us,
        advanced(samples, cursor, t_us) + 1 < samples.len() ==> t_us < samples[advanced(
            samples,
            cursor,
            t_us,
        ) + 1].t_us,
        forward_at(samples, advanced(samples, cursor, t_us)),
    decreases samples.len() - cursor,
{
    if cursor + 1 < samples.len() && samples[cursor + 1].t_us <= t_us {
        law_cursor_brackets(samples, cursor + 1, t_us);
    }
}

/// A line runs from one sample to the next, both as the log gives them in every channel, and
/// only the last sample holds.
pub proof fn law_lines_join_neighbours<V>(samples: Seq<Sample<V>>, cursor: int, t_us: u64)
    requires
        0 <= cursor < samples.len(),
        forward_at(samples, cursor),
    ensures
        match interpolation(samples, cursor, t_us) {
            Interp::Hold(sample) => {
                &&& cursor == samples.len() - 1
                &&& sample.t_us == samples[cursor].t_us
                &&& sample.roll == samples[cursor].roll
                &&& sample.pitch == samples[cursor].pitch
                &&& sample.yaw == samples[cursor].yaw
                &&& sample.throttle == samples[cursor].throttle
            },
            Interp::Between { t_us: t, a, b, span_us } => {
                &&& cursor < samples.len() - 1
                &&& t == t_us
                &&& a.t_us == samples[cursor].t_us && b.t_us == samples[cursor + 1].t_us
                &&& a.roll == samples[cursor].roll && b.roll == samples[cursor + 1].roll
                &&& a.pitch == samples[cursor].pitch && b.pitch == samples[cursor + 1].pitch
                &&& a.yaw == samples[cursor].yaw && b.yaw == samples[cursor + 1].yaw
                &&& a.throttle == samples[cursor].throttle && b.throttle == samples[cursor
                    + 1].throttle
                &&& a.t_us + span_us == b.t_us
            },
        },
{
}

/// From a sample that is not later than `t_us` on, `t_us` is never before the sample
/// that the line starts at, and always before the one that it leads to; only the
/// last sample of all holds.
pub proof fn law_time_stands_between<V>(samples: Seq<Sample<V>>, cursor: int, t_us: u64)
    requires
        0 <= cursor < samples.len(),
        samples[cursor].t_us <= t_us,
    ensures
        match interpolation(samples, advanced(samples, cursor, t_us as int), t_us) {
            Interp::Hold(sample) => sample == samples.last() && sample.t_us <= t_us,
            Interp::Between { t_us: t, a, b, span_us } => {
                &&& t == t_us
                &&& a.t_us <= t < b.t_us
                &&& span_us == b.t_us - a.t_us
            },
        },
{
    law_cursor_brackets(samples, cursor, t_us as int);
}

/// Going on to a later point in time from where an earlier one left the cursor
/// leads to where going there at once does.
pub proof fn law_cursor_resumes<V>(samples: Seq<Sample<V>>, cursor: int, earlier: int, later: int)
    requires
        0 <= cursor < samples.len(),
        earlier <= later,
    ensures
        advanced(samples, advanced(samples, cursor, earlier), later) == advanced(
            samples,
            cursor,
            later,
        ),
    decreases samples.len() - cursor,
{
    if cursor + 1 < samples.len() && samples[cursor + 1].t_us <= earlier {
        law_cursor_resumes(samples, cursor + 1, earlier, later);
    }
}

/// On samples in the order of time, the cursor finds the last one that is not
/// later than `t_us`.
pub proof fn law_cursor_finds_latest<V>(samples: Seq<Sample<V>>, cursor: int, t_us: int)
    requires
        0 <= cursor < samples.len(),
        samples[cursor].t_us <= t_us,
        forall|i: int, j: int|
            0 <= i <= j < samples.len() ==> (#[trigger] samples[i]).t_us <= (
            #[trigger] samples[j]).t_us,
    ensures
        forall|j: int|
            0 <= j < samples.len() ==> ((#[trigger] samples[j]).t_us <= t_us <==> j <= advanced(
                samples,
                cursor,
                t_us,
            )),
{
    law_cursor_brackets(samples, cursor, t_us);
    let at = advanced(samples, cursor, t_us);
    assert forall|j: int| 0 <= j < samples.len() implies ((#[trigger] samples[j]).t_us <= t_us
        <==> j <= at) by {
        if j <= at {
            assert(samples[j].t_us <= samples[at].t_us);
        } else {
            assert(samples[at + 1].t_us <= samples[j].t_us);
        }
    }
}

/// Where a cursor stops on its way to one point in time after the other.
pub open spec fn walked<V>(samples: Seq<Sample<V>>, cursor: int, times: Seq<int>) -> int
    decreases times.len(),
{
    if times.len() == 0 {
        cursor
    } else {
        advanced(samples, walked(samples, cursor, times.drop_last()), times.last())
    }
}

/// Where the points in time never go back, each of them finds the samples that it
/// would find on its own: what was shown before makes no difference.
pub proof fn law_frames_stand_alone<V>(samples: Seq<Sample<V>>, cursor: int, times: Seq<int>)
    requires
        0 <= cursor < samples.len(),
        times.len() > 0,
        forall|i: int, j: int| 0 <= i <= j < times.len() ==> times[i] <= times[j],
    ensures
        walked(samples, cursor, times) == advanced(samples, cursor, times.last()),
    decreases times.len(),
{
    let before = times.drop_last();
    if before.len() > 0 {
        law_frames_stand_alone(samples, cursor, before);
        assert(before.last() <= times.last());
        law_cursor_resumes(samples, cursor, before.last(), times.last());
    } else {
        assert(walked(samples, cursor, before) == cursor);
    }
}

/// Goes through the frames of a flight: how many there are, how many have been shown,
/// and where among the samples the last one was.
#[derive(Clone, Copy, Debug, PartialEq, Eq, Structural)]
pub struct Playback {
    pub frames: u64,
    pub shown: u64,
    pub cursor: usize,
}

/// Where the cursor stops on its way to `t_us`; no point in time leaves it in place.
pub open spec fn reached<V>(samples: Seq<Sample<V>>, cursor: int, t_us: Option<u64>) -> int {
    match t_us {
        Some(t_us) => advanced(samples, cursor, t_us as int),
        None => cursor,
    }
}

impl Playback {
    /// The start of a flight of `count` frames; there is always one.
    pub fn new(count: u64) -> (res: Self)
        ensures
            res == (Playback {
                frames: if count == 0 {
                    1
                } else {
                    count
                },
                shown: 0,
                cursor: 0,
            }),
    {
        let frames: u64 = if count == 0 {
            1
        } else {
            count
        };
        Playback { frames, shown: 0, cursor: 0 }
    }

    /// Whether every frame has been shown.
    pub fn is_over(&self) -> (res: bool)
        ensures
            res == (self.shown >= self.frames),
    {
        self.shown >= self.frames
    }

    /// Whether the samples that a frame at `t_us` stands between are in order.
    pub fn runs_forward<V: Copy>(&self, samples: &[Sample<V>], t_us: Option<u64>) -> (res: bool)
        requires
            self.cursor < samples@.len(),
        ensures
            res == forward_at(samples@, reached(samples@, self.cursor as int, t_us)),
            t_us is None ==> res == (self.cursor + 1 >= samples@.len()
                || samples@[self.cursor as int].t_us <= samples@[self.cursor + 1].t_us),
            t_us matches Some(t) && samples@[self.cursor as int].t_us <= t ==> res,
            forall|at: int|
                #![trigger samples@[at]]
                t_us is Some && self.cursor <= at < samples@.len() && (forall|j: int|
                    self.cursor < j <= at ==> (#[trigger] samples@[j]).t_us <= t_us->0) && (at + 1
                    < samples@.len() ==> samples@[at + 1].t_us > t_us->0) ==> res == (at + 1
                    >= samples@.len() || samples@[at].t_us <= samples@[at + 1].t_us),
    {
        proof {
            if let Some(t) = t_us {
                law_cursor_stops(samples@, self.cursor as int, t as int);
                if samples@[self.cursor as int].t_us <= t {
                    law_cursor_brackets(samples@, self.cursor as int, t as int);
                }
                let stop = advanced(samples@, self.cursor as int, t as int);
                assert forall|at: int|
                    #![trigger samples@[at]]
                    self.cursor <= at < samples@.len() && (forall|j: int|
                        self.cursor < j <= at ==> (#[trigger] samples@[j]).t_us <= t) && (at + 1
                        < samples@.len() ==> samples@[at + 1].t_us > t) implies at == stop by {
                    if at < stop {
                        assert(samples@[at + 1].t_us <= t);
                    } else if stop < at {
                        assert(samples@[stop + 1].t_us <= t);
                    }
                }
            }
        }
        let mut at: usize = self.cursor;
        if let Some(t_us) = t_us {
            advance(samples, &mut at, t_us);
        }
        let n: usize = samples.len();
        at + 1 >= n || samples[at].t_us <= samples[at + 1].t_us
    }

    /// Shows the next frame: what the samples say of `t_us`. A frame without a point
    /// in time shows the samples where the last one was.
    pub fn next_frame<V: Copy>(&mut self, samples: &[Sample<V>], t_us: Option<u64>) -> (res: Interp<
        V,
    >)
        requires
            old(self).cursor < samples@.len(),
            old(self).shown < old(self).frames,
            forward_at(samples@, reached(samples@, old(self).cursor as int, t_us)),
        ensures
            final(self).frames == old(self).frames,
            final(self).shown == old(self).shown + 1,
            final(self).cursor == reached(samples@, old(self).cursor as int, t_us),
            final(self).cursor < samples@.len(),
            res == interpolation(
                samples@,
                final(self).cursor as int,
                match t_us {
                    Some(t_us) => t_us,
                    None => 0,
                },
            ),
            t_us is None ==> final(self).cursor == old(self).cursor,
            t_us matches Some(t) ==> {
                &&& old(self).cursor <= final(self).cursor
                &&& forall|j: int|
                    old(self).cursor < j <= final(self).cursor ==> (#[trigger] samples@[j]).t_us <= t
                &&& final(self).cursor + 1 < samples@.len() ==> samples@[final(self).cursor
                    + 1].t_us > t
            },
            final(self).cursor + 1 < samples@.len() ==> (res matches Interp::Between {
                t_us: t,
                a,
                b,
                span_us,
            } && a == samples@[final(self).cursor as int] && b == samples@[final(self).cursor + 1]
                && a.t_us + span_us == b.t_us && (t_us matches Some(given) ==> t == given) && (t_us
                is None ==> t == 0)),
            final(self).cursor + 1 >= samples@.len() ==> res == Interp::Hold(
                samples@[final(self).cursor as int],
            ),
    {
        self.shown += 1;
        match t_us {
            Some(t_us) => interp_at(samples, &mut self.cursor, t_us),
            None => bracket(samples, self.cursor, 0),
        }
    }
}

} // verus!
