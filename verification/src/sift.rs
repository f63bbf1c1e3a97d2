//! Scale-invariant feature transform: keypoint detection, descriptor matching
//! and match rendering, over images whose samples are single-precision floats
//! carried as their IEEE-754 bit patterns.

pub mod canvas;
pub mod coords;
pub mod descriptor;
pub mod extrema;
pub mod float_bits;
pub mod keypoint;
pub mod matching;
pub mod orientation;
pub mod refine;

pub use self::canvas::{draw_match, RgbCanvas};
pub use self::coords::to_input_coordinates;
pub use self::extrema::find_keypoints;
pub use self::keypoint::{DoGAndKPComputed, DoGComputed, LumaBits, PointPair, SIFTKeyPoint};
pub use self::matching::{dist, match_1nn, match_2nn};

