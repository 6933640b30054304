//! Dynamic time warping for integer-valued sequences.
//!
//! The crate aligns a query sequence against a reference sequence under a
//! family of strategies: exact full or subsequence alignment, a Sakoe-Chiba
//! banded variant, a coarse-to-fine approximation, an early-abandoning
//! threshold search, a two-phase scouting search for long references, and a
//! Needleman-Wunsch style variant with a gap penalty.  Accumulated alignment
//! costs are modelled by [`cost::Cost`], which keeps a genuine "infinity"
//! distinct from every finite value.

pub mod cost;
pub mod dtw;
pub mod dtw_chiba;
pub mod dtw_itakura;
pub mod errors;
pub mod fastdtw;
pub mod laws;
pub mod normalize;
pub mod nw;
pub mod quickdtw;
pub mod scoutingdtw;
pub mod thresholddtw;
pub mod ucr_dtw;
pub mod utils;

pub use cost::AbsDist;
pub use cost::Cost;
pub use cost::Dist;
pub use cost::HillDist;
pub use cost::SqDist;
pub use dtw::dtw;
pub use dtw::dtw_with_path;
pub use dtw::normal_dtw;
pub use dtw::sub_warppath;
pub use dtw::subdtw;
pub use dtw::subdtw_map;
pub use dtw::subdtw_with_path;
pub use dtw::Mode;
pub use errors::DtwError;
pub use fastdtw::fast_dtw;
pub use normalize::NormalizeType;
pub use nw::needleman_dtw;
pub use scoutingdtw::scouting_dtw;
pub use scoutingdtw::scouting_threshold_dtw;
pub use thresholddtw::thresholddtw;
pub use ucr_dtw::DynamicTimeWarping;
