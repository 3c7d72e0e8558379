//! Which channel drives which stick axis, and what its value is measured by.

use crate::log::Sample;
use vstd::prelude::*;

verus! {

/// What a stick axis can drive.
#[derive(Clone, Copy, PartialEq, Eq, Debug, Structural)]
pub enum Channel {
    Roll,
    Pitch,
    Yaw,
    Throttle,
}

/// Which channel drives the X and the Y axis of each stick box, in that order.
#[derive(Clone, Copy, PartialEq, Eq, Debug)]
pub struct Mapping {
    pub left: (Channel, Channel),
    pub right: (Channel, Channel),
}

/// The number given is not that of a radio mode.
#[derive(Clone, Copy, PartialEq, Eq, Debug, Structural)]
pub struct UnknownMode;

impl UnknownMode {
    /// What to tell the user.
    pub fn message(&self) -> (res: String)
        ensures
            res@ == "--mode must be 1, 2, 3, or 4"@,
    {
        "--mode must be 1, 2, 3, or 4".to_string()
    }
}

/// The stick assignment of each radio mode.
pub open spec fn assignment(mode: int) -> Option<Mapping> {
    if mode == 1 {
        Some(
            Mapping {
                left: (Channel::Yaw, Channel::Pitch),
                right: (Channel::Roll, Channel::Throttle),
            },
        )
    } else if mode == 2 {
        Some(
            Mapping {
                left: (Channel::Yaw, Channel::Throttle),
                right: (Channel::Roll, Channel::Pitch),
            },
        )
    } else if mode == 3 {
        Some(
            Mapping {
                left: (Channel::Roll, Channel::Pitch),
                right: (Channel::Yaw, Channel::Throttle),
            },
        )
    } else if mode == 4 {
        Some(
            Mapping {
                left: (Channel::Roll, Channel::Throttle),
                right: (Channel::Yaw, Channel::Pitch),
            },
        )
    } else {
        None
    }
}

/// The stick assignment of a radio mode.
pub fn mapping(mode: u8) -> (res: Result<Mapping, UnknownMode>)
    ensures
        res is Ok <==> assignment(mode as int) is Some,
        res matches Ok(map) ==> assignment(mode as int) == Some(map),
        res is Ok <==> 1 <= mode <= 4,
        res matches Ok(map) ==> {
            &&& mode <= 2 ==> map.left.0 is Yaw && map.right.0 is Roll
            &&& mode >= 3 ==> map.left.0 is Roll && map.right.0 is Yaw
            &&& mode % 2 == 1 ==> map.left.1 is Pitch && map.right.1 is Throttle
            &&& mode % 2 == 0 ==> map.left.1 is Throttle && map.right.1 is Pitch
        },
{
    match mode {
        1 => Ok(
            Mapping {
                left: (Channel::Yaw, Channel::Pitch),
                right: (Channel::Roll, Channel::Throttle),
            },
        ),
        2 => Ok(
            Mapping {
                left: (Channel::Yaw, Channel::Throttle),
                right: (Channel::Roll, Channel::Pitch),
            },
        ),
        3 => Ok(
            Mapping {
                left: (Channel::Roll, Channel::Pitch),
                right: (Channel::Yaw, Channel::Throttle),
            },
        ),
        4 => Ok(
            Mapping {
                left: (Channel::Roll, Channel::Throttle),
                right: (Channel::Yaw, Channel::Pitch),
            },
        ),
        _ => Err(UnknownMode),
    }
}

/// Whether a channel moves a stick sideways.
pub open spec fn is_sideways(channel: Channel) -> bool {
    channel is Roll || channel is Yaw
}

/// There are the modes 1 to 4. Yaw is on the left stick in the first two of them and roll in
/// the other two; throttle is on the right stick in the odd ones and on the left one in the
/// even ones. What is not on one stick is on the other.
pub proof fn law_modes_place_yaw_and_throttle(mode: int)
    ensures
        assignment(mode) is Some <==> 1 <= mode <= 4,
        assignment(mode) matches Some(map) ==> {
            &&& map.left.0 is Yaw <==> mode == 1 || mode == 2
            &&& map.right.0 is Yaw <==> mode == 3 || mode == 4
            &&& map.right.1 is Throttle <==> mode == 1 || mode == 3
            &&& map.left.1 is Throttle <==> mode == 2 || mode == 4
            &&& map.left.0 is Roll <==> map.right.0 is Yaw
            &&& map.right.0 is Roll <==> map.left.0 is Yaw
            &&& map.left.1 is Pitch <==> map.right.1 is Throttle
            &&& map.right.1 is Pitch <==> map.left.1 is Throttle
        },
{
}

/// In every mode each of the four channels drives exactly one axis, and roll and
/// yaw move a stick sideways, pitch and throttle up and down.
pub proof fn law_every_channel_has_an_axis(mode: int, channel: Channel)
    requires
        assignment(mode) is Some,
    ensures
        ({
            let map = assignment(mode)->0;
            if is_sideways(channel) {
                &&& (map.left.0 == channel) != (map.right.0 == channel)
                &&& map.left.1 != channel && map.right.1 != channel
            } else {
                &&& (map.left.1 == channel) != (map.right.1 == channel)
                &&& map.left.0 != channel && map.right.0 != channel
            }
        }),
{
}

/// No two modes have the same assignment.
pub proof fn law_modes_differ(a: int, b: int)
    requires
        assignment(a) is Some,
        assignment(a) == assignment(b),
    ensures
        a == b,
{
}

/// How a channel's value becomes a position: the middle and the ends of its range,
/// and whether it is turned round.
#[derive(Clone, Copy, PartialEq, Eq, Debug)]
pub struct Norm<F> {
    /// Half of the range of roll, pitch and yaw, whose middle is 0.
    pub rp_half: F,
    pub thr_min: F,
    pub thr_max: F,
    pub inv_roll: bool,
    pub inv_pitch: bool,
    pub inv_yaw: bool,
    pub inv_throttle: bool,
}

impl Default for Norm<u32> {
    fn default() -> (res: Self)
        ensures
            res == (Norm {
                rp_half: 500u32,
                thr_min: 1000u32,
                thr_max: 2000u32,
                inv_roll: false,
                inv_pitch: false,
                inv_yaw: false,
                inv_throttle: false,
            }),
    {
        Norm {
            rp_half: 500,
            thr_min: 1000,
            thr_max: 2000,
            inv_roll: false,
            inv_pitch: false,
            inv_yaw: false,
            inv_throttle: false,
        }
    }
}

/// A value on the way to a position between -1 (down or left) and 1 (up or right).
#[derive(Clone, Copy, PartialEq, Eq, Debug)]
pub enum Bipolar<F> {
    /// `value / half`, held between -1 and 1.
    Centered { value: F, half: F, inverted: bool },
    /// `(value - low) / (high - low)`, held between 0 and 1, with 0 at the bottom
    /// and 1 at the top.
    Ranged { value: F, low: F, high: F, inverted: bool },
}

impl<F: Copy> Norm<F> {
    /// What a channel of a sample is measured by.
    pub open spec fn measure(self, s: Sample<F>, c: Channel) -> Bipolar<F> {
        match c {
            Channel::Roll => Bipolar::Centered {
                value: s.roll,
                half: self.rp_half,
                inverted: self.inv_roll,
            },
            Channel::Pitch => Bipolar::Centered {
                value: s.pitch,
                half: self.rp_half,
                inverted: self.inv_pitch,
            },
            Channel::Yaw => Bipolar::Centered {
                value: s.yaw,
                half: self.rp_half,
                inverted: self.inv_yaw,
            },
            Channel::Throttle => Bipolar::Ranged {
                value: s.throttle,
                low: self.thr_min,
                high: self.thr_max,
                inverted: self.inv_throttle,
            },
        }
    }

    /// Roll, pitch and yaw are measured from the middle of the same range, and throttle
    /// between the ends of its own; each by its own number, and turned round exactly where
    /// the flag of that channel is set.
    pub proof fn law_each_channel_is_its_own(self, s: Sample<F>)
        ensures
            self.measure(s, Channel::Roll) matches Bipolar::Centered { value, half, inverted }
                && value == s.roll && half == self.rp_half && inverted == self.inv_roll,
            self.measure(s, Channel::Pitch) matches Bipolar::Centered { value, half, inverted }
                && value == s.pitch && half == self.rp_half && inverted == self.inv_pitch,
            self.measure(s, Channel::Yaw) matches Bipolar::Centered { value, half, inverted }
                && value == s.yaw && half == self.rp_half && inverted == self.inv_yaw,
            self.measure(s, Channel::Throttle) matches Bipolar::Ranged {
                value,
                low,
                high,
                inverted,
            } && value == s.throttle && low == self.thr_min && high == self.thr_max && inverted
                == self.inv_throttle,
    {
    }

    /// Turning one channel round changes what is measured of that channel and of no other:
    /// two norms that differ in the flag of roll alone measure roll differently and the rest
    /// alike, and so for each channel.
    pub proof fn law_a_flag_turns_its_channel(self, other: Norm<F>, s: Sample<F>)
        requires
            self.rp_half == other.rp_half,
            self.thr_min == other.thr_min,
            self.thr_max == other.thr_max,
        ensures
            self.measure(s, Channel::Roll) == other.measure(s, Channel::Roll) <==> self.inv_roll
                == other.inv_roll,
            self.measure(s, Channel::Pitch) == other.measure(s, Channel::Pitch) <==> self.inv_pitch
                == other.inv_pitch,
            self.measure(s, Channel::Yaw) == other.measure(s, Channel::Yaw) <==> self.inv_yaw
                == other.inv_yaw,
            self.measure(s, Channel::Throttle) == other.measure(s, Channel::Throttle)
                <==> self.inv_throttle == other.inv_throttle,
    {
    }

    /// What a channel of a sample is measured by.
    pub fn bipolar(&self, s: &Sample<F>, c: Channel) -> (res: Bipolar<F>)
        ensures
            res == self.measure(*s, c),
            c is Roll ==> (res matches Bipolar::Centered { value, half, inverted } && value
                == s.roll && half == self.rp_half && inverted == self.inv_roll),
            c is Pitch ==> (res matches Bipolar::Centered { value, half, inverted } && value
                == s.pitch && half == self.rp_half && inverted == self.inv_pitch),
            c is Yaw ==> (res matches Bipolar::Centered { value, half, inverted } && value == s.yaw
                && half == self.rp_half && inverted == self.inv_yaw),
            c is Throttle ==> (res matches Bipolar::Ranged { value, low, high, inverted } && value
                == s.throttle && low == self.thr_min && high == self.thr_max && inverted
                == self.inv_throttle),
    {
        match c {
            Channel::Roll => Bipolar::Centered {
                value: s.roll,
                half: self.rp_half,
                inverted: self.inv_roll,
            },
            Channel::Pitch => Bipolar::Centered {
                value: s.pitch,
                half: self.rp_half,
                inverted: self.inv_pitch,
            },
            Channel::Yaw => Bipolar::Centered {
                value: s.yaw,
                half: self.rp_half,
                inverted: self.inv_yaw,
            },
            Channel::Throttle => Bipolar::Ranged {
                value: s.throttle,
                low: self.thr_min,
                high: self.thr_max,
                inverted: self.inv_throttle,
            },
        }
    }
}

} // verus!
