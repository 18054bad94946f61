//! Measuring the size of a coloured drop over the frames of a video.
//!
//! A frame is an [`image::Image`]. [`new_frames::new_frame`] takes out its background, picks the
//! pixels of the drop's colour with [`color::filter`], leaves out those that lie far from their
//! [`median::median`], and returns the [`convex_hull::convex_hull`] of the rest, which scans
//! them in their order by [`angles::ByAngle`].
//! [`densify::insert_intermediate_points`] puts places along that outline, from which the size
//! is taken, and [`new_frames::paint`] marks them in the frame. [`schedule::chunk`] shares the
//! frames out to workers, and [`sizes::merge`] puts together what they hand in.
//!
//! The modules [`enclosure`], [`rows`], [`rays`], [`turns`] and [`squares`] hold no code that
//! runs: they prove what the hull promises.

pub mod angles;
pub mod color;
pub mod convex_hull;
pub mod densify;
pub mod enclosure;
pub mod hex_color;
pub mod image;
pub mod median;
pub mod new_frames;
pub mod order;
pub mod paths;
pub mod point;
pub mod rays;
pub mod rows;
pub mod schedule;
pub mod sizes;
pub mod squares;
pub mod turns;
