//! The record that both decoders fill.

use crate::units::{Binary64, Radians};
use vstd::prelude::*;

verus! {

/// One sample of a trajectory.
///
/// Time, position and attitude are present in every format. The other fields
/// are `None` where the format that the sample was read from does not hold
/// them, so that "not measured" differs from "measured as zero".
#[derive(Clone, Copy, Debug, PartialEq, Eq)]
pub struct Point {
    /// Seconds since the epoch that the format defines.
    pub time: Binary64,
    pub latitude: Radians,
    pub longitude: Radians,
    /// Meters.
    pub altitude: Binary64,
    pub roll: Radians,
    pub pitch: Radians,
    pub yaw: Radians,
    /// Meters per second.
    pub x_velocity: Option<Binary64>,
    /// Meters per second.
    pub y_velocity: Option<Binary64>,
    /// Meters per second.
    pub z_velocity: Option<Binary64>,
    /// The angle between true north and the heading that the navigation frame
    /// refers to.
    pub wander_angle: Option<Radians>,
    /// Meters per second squared.
    pub x_acceleration: Option<Binary64>,
    /// Meters per second squared.
    pub y_acceleration: Option<Binary64>,
    /// Meters per second squared.
    pub z_acceleration: Option<Binary64>,
    /// Radians per second.
    pub x_angular_rate: Option<Radians>,
    /// Radians per second.
    pub y_angular_rate: Option<Radians>,
    /// Radians per second.
    pub z_angular_rate: Option<Radians>,
}

impl Point {
    /// The sample at time zero with every required field at positive zero and
    /// no optional field.
    pub open spec fn zero() -> Point {
        let zero = Binary64 { bits: 0 };
        Point {
            time: zero,
            latitude: Radians(zero),
            longitude: Radians(zero),
            altitude: zero,
            roll: Radians(zero),
            pitch: Radians(zero),
            yaw: Radians(zero),
            x_velocity: None,
            y_velocity: None,
            z_velocity: None,
            wander_angle: None,
            x_acceleration: None,
            y_acceleration: None,
            z_acceleration: None,
            x_angular_rate: None,
            y_angular_rate: None,
            z_angular_rate: None,
        }
    }

    /// Whether velocity, wander angle, acceleration and angular rate are all
    /// absent.
    pub open spec fn lacks_kinematics(self) -> bool {
        &&& self.x_velocity is None
        &&& self.y_velocity is None
        &&& self.z_velocity is None
        &&& self.wander_angle is None
        &&& self.x_acceleration is None
        &&& self.y_acceleration is None
        &&& self.z_acceleration is None
        &&& self.x_angular_rate is None
        &&& self.y_angular_rate is None
        &&& self.z_angular_rate is None
    }

    /// Whether velocity, wander angle, acceleration and angular rate are all
    /// present.
    pub open spec fn has_kinematics(self) -> bool {
        &&& self.x_velocity is Some
        &&& self.y_velocity is Some
        &&& self.z_velocity is Some
        &&& self.wander_angle is Some
        &&& self.x_acceleration is Some
        &&& self.y_acceleration is Some
        &&& self.z_acceleration is Some
        &&& self.x_angular_rate is Some
        &&& self.y_angular_rate is Some
        &&& self.z_angular_rate is Some
    }
}

impl Default for Point {
    fn default() -> (point: Point)
        ensures
            point == Point::zero(),
    {
        let zero = Binary64 { bits: 0 };
        Point {
            time: zero,
            latitude: Radians(zero),
            longitude: Radians(zero),
            altitude: zero,
            roll: Radians(zero),
            pitch: Radians(zero),
            yaw: Radians(zero),
            x_velocity: None,
            y_velocity: None,
            z_velocity: None,
            wander_angle: None,
            x_acceleration: None,
            y_acceleration: None,
            z_acceleration: None,
            x_angular_rate: None,
            y_angular_rate: None,
            z_angular_rate: None,
        }
    }
}

} // verus!
