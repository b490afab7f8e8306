//! Detection of evenly spaced interval efforts in a recorded activity.
pub mod duration;
pub mod fit;
pub mod gpx;
pub mod hike;
pub mod interval;
pub mod isolate;
pub mod report;
pub mod select;
