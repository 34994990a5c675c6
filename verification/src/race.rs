//! Static reference data about the race itself: where and in which season it
//! is run. The betting rules never read this; it is kept for callers that
//! describe the event a betting table belongs to.

use vstd::prelude::*;

verus! {

/// Race information
pub struct Race {
    pub location: Location,
    pub season: u16, // 2022, 2023, ...
}

/// Country location of a Grand Prix race
pub enum Location {
    USA,
    Mexico,
    Belgium,
    Netherlands,
}

} // verus!
