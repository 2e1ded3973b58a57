use vstd::prelude::*;

pub use crate::capture::MonitorData;
use crate::capture::monitor_summary;

verus! {

/// Geometry and position of each display, in order (the Windows display list).
pub fn get_system_monitors(monitors: Vec<MonitorData>) -> (r: Vec<(u32, u32, i32, i32)>)
    ensures
        r@ == monitors@.map_values(|m: MonitorData| monitor_summary(m)),
{
    crate::capture::getSystemMonitors(monitors)
}

} // verus!
