//! Options of a run that makes a mosaic from files.

use crate::progress::ProgressSender;
use vstd::prelude::*;

verus! {

/// What to make: how wide, out of how many images, and whom to tell about the progress.
#[derive(Debug, Clone)]
pub struct MakeImgOfImsOpts {
    /// Width in pixels to which the target image is resized.
    pub target_width: u32,
    /// Number of images side by side.
    pub num_horizontal_imgs: u32,
    /// Number of images on top of each other.
    pub num_vertical_imgs: u32,
    /// Largest number of images to read; all of them where there is no limit.
    pub max_imgs: Option<usize>,
    /// Lets an image be used for more than one cell.
    pub no_pop: bool,
    /// Where progress is reported.
    pub progress_sender: Option<ProgressSender>,
}

impl Default for MakeImgOfImsOpts {
    fn default() -> (opts: Self)
        ensures
            opts.target_width == 1000,
            opts.num_horizontal_imgs == 40,
            opts.num_vertical_imgs == 40,
            opts.max_imgs is None,
            !opts.no_pop,
            opts.progress_sender is None,
    {
        Self {
            target_width: 1000,
            num_horizontal_imgs: 40,
            num_vertical_imgs: 40,
            max_imgs: None,
            no_pop: false,
            progress_sender: None,
        }
    }
}

impl MakeImgOfImsOpts {
    /// Size of one cell of a target image of `target_width` x `target_height` pixels: the
    /// target size divided by the number of images along each axis, rounded down.
    ///
    /// There is no cell size where a number of images is 0.
    pub fn cell_size(&self, target_width: u32, target_height: u32) -> (size: Option<(u32, u32)>)
        ensures
            size is None <==> self.num_horizontal_imgs == 0 || self.num_vertical_imgs == 0,
            size matches Some((width, height)) ==> width == target_width
                / self.num_horizontal_imgs && height == target_height / self.num_vertical_imgs,
    {
        if self.num_horizontal_imgs == 0 || self.num_vertical_imgs == 0 {
            None
        } else {
            Some((target_width / self.num_horizontal_imgs, target_height / self.num_vertical_imgs))
        }
    }

    /// Whether an image is used for one cell at most.
    pub fn pop_used_img(&self) -> (once: bool)
        ensures
            once == !self.no_pop,
    {
        !self.no_pop
    }
}

} // verus!
