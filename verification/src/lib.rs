//! Photomosaics: a target image rebuilt as a grid of cells, each filled with one whole image
//! chosen from a pool of candidates so that the grid resembles the target.
//!
//! The matching engine scores every candidate against every cell ([`score`], [`matrix`]),
//! gives every cell a candidate by a greedy scan of the scores ([`assign`]), and copies the
//! chosen candidates into the output ([`compose`]); [`fill`] runs the three in turn. The
//! other modules hold what the front ends need around the engine.

pub mod assign;
pub mod compose;
pub mod dialog;
pub mod fill;
pub mod matrix;
pub mod options;
pub mod paths;
pub mod progress;
pub mod ranking;
pub mod raster;
pub mod sample;
pub mod score;
pub mod text;

pub use crate::fill::{fill, fill_target_img, DedupPolicy, FillError};
pub use crate::options::MakeImgOfImsOpts;
pub use crate::paths::{find_free_filepath, IMAGE_EXTENSIONS};
pub use crate::progress::{progress_channel, Progress, ProgressReceiver, ProgressSender};
pub use crate::raster::Image;
