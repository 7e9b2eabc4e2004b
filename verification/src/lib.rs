//! Note-density statistics for rhythm-game beatmaps.
//!
//! A beatmap is reduced to the chronologically sorted timestamps of its hit
//! objects, in whole milliseconds. From those the crate computes the average
//! number of notes per second, the density inside a time window, and the
//! density distribution over equally wide buckets of the timeline. Every
//! density is an exact fraction, so that each result can be stated and proved
//! without rounding.
//!
//! * [`time_index`]: the sorted timestamps and the two binary searches.
//! * [`buckets`]: which bucket of a timeline holds a timestamp.
//! * [`calc`]: average, window and bucket densities.
//! * [`frequency`]: distributions selected by a sampling frequency.
//! * [`hit_objects`]: timestamps from the text of a beatmap file.
//! * [`laws`]: what holds of the computations on every beatmap.

pub mod buckets;
pub mod calc;
pub mod density;
pub mod error;
pub mod frequency;
pub mod hit_objects;
pub mod laws;
pub mod time_index;

pub use calc::calc_distribution;
pub use calc::calc_distribution_2;
pub use calc::calc_distribution_smart;
pub use calc::calc_nps;
pub use calc::calc_nps_range_by_hitobjects;
pub use calc::calc_nps_range_by_time;
pub use density::Density;
pub use error::NoteError;
pub use error::NpsError;
pub use frequency::calculate_average_notes_per_second;
pub use frequency::Frequency;
pub use frequency::KeyValue;
pub use hit_objects::parse_hit_objects;
pub use hit_objects::read_note;
pub use time_index::TimeIndex;
