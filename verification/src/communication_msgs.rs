use vstd::prelude::*;

use crate::geometry::Pose;

verus! {

/// The typed message produced by a localization adapter: the estimated pose
/// of the vehicle.
#[derive(Clone, Copy, Debug, PartialEq, Eq, Structural)]
pub struct LocalizationMsg {
    pub pose: Pose,
}

/// Placeholder for a laser-scan message.
pub struct LaserScanMsg {}

/// Placeholder for an inertial measurement message.
#[derive(Clone, Copy, Debug, PartialEq, Eq, Structural)]
pub struct ImuMsg {}

/// Marker for the control message kinds that the output side supports.
pub trait SupportedControlTrait {}

pub struct ControlOmnidirectionalMsg {}

pub struct ControlBicycleMsg {}

pub struct ControlDifferentialMsg {}

impl SupportedControlTrait for ControlOmnidirectionalMsg {}

impl SupportedControlTrait for ControlBicycleMsg {}

impl SupportedControlTrait for ControlDifferentialMsg {}

/// Output bundle handed to the actuation side.
pub struct OutputData<T: SupportedControlTrait> {
    pub ctrl_msg: T,
}

} // verus!
