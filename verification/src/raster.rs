//! Raster images with three 16-bit colour channels per pixel.
//!
//! An [`Image`] stores its samples row by row, the three channels of a pixel next to each other.
//! Contracts speak of an image through its view, a [`RasterView`].

use vstd::prelude::*;

verus! {

/// The mathematical content of an [`Image`].
pub struct RasterView {
    pub width: nat,
    pub height: nat,
    pub samples: Seq<u16>,
}

impl RasterView {
    /// The sample sequence holds exactly one sample per channel of every pixel.
    pub open spec fn wf(self) -> bool {
        self.samples.len() == self.width * self.height * 3
    }

    /// `(x, y)` names a pixel of the image.
    pub open spec fn contains(self, x: int, y: int) -> bool {
        0 <= x < self.width && 0 <= y < self.height
    }

    /// Position of the first sample of pixel `(x, y)` in `samples`.
    pub open spec fn offset(self, x: int, y: int) -> int {
        (y * self.width + x) * 3
    }

    /// Channel `c` of pixel `(x, y)`.
    pub open spec fn sample(self, x: int, y: int, c: int) -> u16 {
        self.samples[self.offset(x, y) + c]
    }

    /// The window of `width` x `height` pixels whose top-left pixel is `(left, top)`, as an
    /// image of its own.
    pub open spec fn window(self, left: int, top: int, width: nat, height: nat) -> RasterView {
        RasterView {
            width,
            height,
            samples: Seq::new(
                width * height * 3,
                |k: int|
                    self.sample(
                        left + (k / 3) % (width as int),
                        top + (k / 3) / (width as int),
                        k % 3,
                    ),
            ),
        }
    }

    /// The part of this image that a window of the given position and size selects: a corner
    /// outside the image is moved onto its edge, and what reaches past the right or bottom
    /// edge is cut off.
    pub open spec fn clamped_window(self, left: nat, top: nat, width: nat, height: nat) -> RasterView {
        self.window(
            left as int,
            top as int,
            clamped_extent(self.width, left, width),
            clamped_extent(self.height, top, height),
        )
    }

    /// The two images have the same size and agree on every sample.
    pub open spec fn same_pixels(self, other: RasterView) -> bool {
        &&& self.width == other.width
        &&& self.height == other.height
        &&& forall|x: int, y: int, c: int|
            self.contains(x, y) && 0 <= c < 3 ==> #[trigger] self.sample(x, y, c) == other.sample(
                x,
                y,
                c,
            )
    }
}

/// The samples of a pixel inside a `w` x `h` image lie inside its sample sequence.
pub proof fn lemma_offset_in_bounds(w: int, h: int, x: int, y: int)
    requires
        0 <= x < w,
        0 <= y < h,
    ensures
        0 <= y * w + x < w * h,
        0 <= (y * w + x) * 3,
        (y * w + x) * 3 + 3 <= w * h * 3,
{
    assert(0 <= y * w + x < w * h) by (nonlinear_arith)
        requires
            0 <= x < w,
            0 <= y < h,
    ;
}

/// Every position in the sample sequence of a `w` x `h` image is a channel of a pixel.
pub proof fn lemma_index_to_pixel(w: int, h: int, k: int)
    requires
        0 <= w,
        0 <= h,
        0 <= k < w * h * 3,
    ensures
        0 < w,
        0 <= (k / 3) % w < w,
        0 <= (k / 3) / w < h,
        0 <= k % 3 < 3,
        (((k / 3) / w) * w + (k / 3) % w) * 3 + k % 3 == k,
{
    let p = k / 3;
    vstd::arithmetic::div_mod::lemma_fundamental_div_mod(p, w);
    let y = p / w;
    let x = p % w;
    assert(0 <= y < h && y * w + x == p) by (nonlinear_arith)
        requires
            p == w * y + x,
            0 <= x < w,
            0 <= p < w * h,
    ;
}

/// Two well-formed images of the same size that agree on every sample are the same image.
pub proof fn lemma_same_pixels_equal(a: RasterView, b: RasterView)
    requires
        a.wf(),
        b.wf(),
        a.same_pixels(b),
    ensures
        a == b,
{
    assert forall|k: int| 0 <= k < a.samples.len() implies a.samples[k] == b.samples[k] by {
        lemma_index_to_pixel(a.width as int, a.height as int, k);
        let x = (k / 3) % (a.width as int);
        let y = (k / 3) / (a.width as int);
        assert(a.sample(x, y, k % 3) == b.sample(x, y, k % 3));
    }
    assert(a.samples =~= b.samples);
}

/// A window of an image is well formed, and its pixels are those of the image it is cut from.
pub proof fn lemma_window_pixels(src: RasterView, left: int, top: int, width: nat, height: nat)
    ensures
        src.window(left, top, width, height).wf(),
        forall|x: int, y: int, c: int|
            0 <= x < width && 0 <= y < height && 0 <= c < 3 ==> #[trigger] src.window(
                left,
                top,
                width,
                height,
            ).sample(x, y, c) == src.sample(left + x, top + y, c),
{
    let win = src.window(left, top, width, height);
    assert forall|x: int, y: int, c: int|
        0 <= x < width && 0 <= y < height && 0 <= c < 3 implies #[trigger] win.sample(x, y, c)
        == src.sample(left + x, top + y, c) by {
        let w = width as int;
        let p = y * w + x;
        lemma_offset_in_bounds(w, height as int, x, y);
        vstd::arithmetic::div_mod::lemma_fundamental_div_mod_converse(p, w, y, x);
    }
}

/// Two different pixels of an image do not share a sample.
pub proof fn lemma_offsets_distinct(w: int, x1: int, y1: int, x2: int, y2: int)
    requires
        0 <= x1 < w,
        0 <= x2 < w,
        0 <= y1,
        0 <= y2,
        x1 != x2 || y1 != y2,
    ensures
        y1 * w + x1 != y2 * w + x2,
{
    if y1 < y2 {
        assert(y1 * w + x1 < y2 * w + x2) by (nonlinear_arith)
            requires
                0 <= x1 < w,
                0 <= x2,
                0 <= y1 < y2,
        ;
    } else if y2 < y1 {
        assert(y2 * w + x2 < y1 * w + x1) by (nonlinear_arith)
            requires
                0 <= x2 < w,
                0 <= x1,
                0 <= y2 < y1,
        ;
    }
}

/// A raster image: `width` x `height` pixels of three `u16` channels each.
pub struct Image {
    width: u32,
    height: u32,
    data: Vec<u16>,
}

impl View for Image {
    type V = RasterView;

    /// The size and the samples of the image. (A value whose sample vector has another length
    /// than its size asks for cannot be built; its view would read as all zero.)
    closed spec fn view(&self) -> RasterView {
        let width = self.width as nat;
        let height = self.height as nat;
        RasterView {
            width,
            height,
            samples: if self.data@.len() == width * height * 3 {
                self.data@
            } else {
                Seq::new(width * height * 3, |k: int| 0u16)
            },
        }
    }
}

impl Image {
    #[verifier::type_invariant]
    spec fn sized(&self) -> bool {
        self.data@.len() == self.width as nat * self.height as nat * 3
    }

    /// Builds an image from its samples, row by row, three per pixel.
    ///
    /// Fails when `data` does not hold exactly `3 * width * height` samples.
    pub fn from_raw(width: u32, height: u32, data: Vec<u16>) -> (img: Option<Image>)
        ensures
            img is Some <==> data@.len() == width as nat * height as nat * 3,
            img matches Some(i) ==> i@ == (RasterView {
                width: width as nat,
                height: height as nat,
                samples: data@,
            }),
    {
        assert(width as nat * height as nat * 3 <= 0x3_0000_0000_0000_0000) by (nonlinear_arith)
            requires
                width <= 0xffff_ffff,
                height <= 0xffff_ffff,
        ;
        let needed: u128 = (width as u128) * (height as u128) * 3;
        if data.len() as u128 == needed {
            Some(Image { width, height, data })
        } else {
            None
        }
    }

    /// The view of every image is well formed, and its width and height fit in 32 bits.
    pub proof fn lemma_well_formed(&self)
        ensures
            self@.wf(),
            self@.width <= u32::MAX,
            self@.height <= u32::MAX,
    {
    }

    /// An image of `width` x `height` pixels with every sample zero.
    ///
    /// Fails when the samples of such an image cannot be held in one vector.
    pub fn blank(width: u32, height: u32) -> (img: Option<Image>)
        ensures
            img is Some <==> width as nat * height as nat * 3 <= usize::MAX,
            img matches Some(i) ==> {
                &&& i@.width == width
                &&& i@.height == height
                &&& forall|k: int| 0 <= k < i@.samples.len() ==> i@.samples[k] == 0
            },
    {
        assert(width as nat * height as nat * 3 <= 0x3_0000_0000_0000_0000) by (nonlinear_arith)
            requires
                width <= 0xffff_ffff,
                height <= 0xffff_ffff,
        ;
        let needed: u128 = (width as u128) * (height as u128) * 3;
        if needed <= usize::MAX as u128 {
            let data: Vec<u16> = vec![0u16; needed as usize];
            Some(Image { width, height, data })
        } else {
            None
        }
    }

    /// Width in pixels.
    pub fn width(&self) -> (w: u32)
        ensures
            w == self@.width,
    {
        self.width
    }

    /// Height in pixels.
    pub fn height(&self) -> (h: u32)
        ensures
            h == self@.height,
    {
        self.height
    }

    /// Width and height in pixels.
    pub fn dimensions(&self) -> (d: (u32, u32))
        ensures
            d.0 == self@.width,
            d.1 == self@.height,
    {
        (self.width, self.height)
    }

    /// The samples, row by row.
    pub fn as_raw(&self) -> (data: &Vec<u16>)
        ensures
            data@ == self@.samples,
    {
        proof {
            use_type_invariant(self);
        }
        &self.data
    }

    /// Gives up the image for its samples.
    pub fn into_raw(self) -> (data: Vec<u16>)
        ensures
            data@ == self@.samples,
    {
        proof {
            use_type_invariant(&self);
        }
        self.data
    }

    /// Reads the three channels of pixel `(x, y)`.
    pub fn get_pixel(&self, x: u32, y: u32) -> (px: [u16; 3])
        requires
            self@.contains(x as int, y as int),
        ensures
            forall|c: int| 0 <= c < 3 ==> px[c] == #[trigger] self@.sample(x as int, y as int, c),
    {
        proof {
            use_type_invariant(self);
            lemma_offset_in_bounds(self.width as int, self.height as int, x as int, y as int);
            assert(self.data@.len() == self.data.len());
        }
        let at: usize = (y as usize * self.width as usize + x as usize) * 3;
        [self.data[at], self.data[at + 1], self.data[at + 2]]
    }

    /// Overwrites the three channels of pixel `(x, y)`; every other pixel keeps its value.
    pub fn put_pixel(&mut self, x: u32, y: u32, px: [u16; 3])
        requires
            old(self)@.contains(x as int, y as int),
        ensures
            final(self)@.width == old(self)@.width,
            final(self)@.height == old(self)@.height,
            forall|c: int| 0 <= c < 3 ==> #[trigger] final(self)@.sample(x as int, y as int, c) == px[c],
            forall|x2: int, y2: int, c: int|
                old(self)@.contains(x2, y2) && 0 <= c < 3 && (x2 != x || y2 != y)
                    ==> #[trigger] final(self)@.sample(x2, y2, c) == old(self)@.sample(x2, y2, c),
    {
        proof {
            use_type_invariant(&*self);
            lemma_offset_in_bounds(self.width as int, self.height as int, x as int, y as int);
            assert(self.data@.len() == self.data.len());
        }
        let at: usize = (y as usize * self.width as usize + x as usize) * 3;
        self.data[at] = px[0];
        self.data[at + 1] = px[1];
        self.data[at + 2] = px[2];
        proof {
            assert forall|x2: int, y2: int, c: int|
                old(self)@.contains(x2, y2) && 0 <= c < 3 && (x2 != x || y2 != y)
                implies #[trigger] self@.sample(x2, y2, c) == old(self)@.sample(x2, y2, c) by {
                lemma_offsets_distinct(self.width as int, x as int, y as int, x2, y2);
                lemma_offset_in_bounds(self.width as int, self.height as int, x2, y2);
            }
        }
    }

    /// Copies the window of `width` x `height` pixels whose top-left corner is `(left, top)`.
    ///
    /// A corner outside the image is moved onto its edge, and a window that reaches past the
    /// right or bottom edge ends there.
    pub fn crop(&self, left: u32, top: u32, width: u32, height: u32) -> (out: Image)
        ensures
            out@ == self@.clamped_window(left as nat, top as nat, width as nat, height as nat),
    {
        proof {
            use_type_invariant(self);
        }
        let x0: u32 = if left < self.width { left } else { self.width };
        let y0: u32 = if top < self.height { top } else { self.height };
        let w: u32 = if width < self.width - x0 { width } else { self.width - x0 };
        let h: u32 = if height < self.height - y0 { height } else { self.height - y0 };
        proof {
            assert(w as nat * h as nat * 3 <= self.width as nat * self.height as nat * 3)
                by (nonlinear_arith)
                requires
                    w <= self.width,
                    h <= self.height,
            ;
            assert(self.data@.len() == self.data.len());
        }
        let blank = Image::blank(w, h);
        let mut out = blank.unwrap();
        let mut y: u32 = 0;
        while y < h
            invariant
                y <= h,
                x0 + w <= self@.width,
                y0 + h <= self@.height,
                out@.width == w,
                out@.height == h,
                w > 0 ==> x0 == left,
                h > 0 ==> y0 == top,
                forall|x2: int, y2: int, c: int|
                    0 <= x2 < w && 0 <= y2 < y && 0 <= c < 3 ==> #[trigger] out@.sample(x2, y2, c)
                        == self@.sample(x0 + x2, y0 + y2, c),
            decreases h - y,
        {
            let mut x: u32 = 0;
            while x < w
                invariant
                    x <= w,
                    y < h,
                    x0 + w <= self@.width,
                    y0 + h <= self@.height,
                    out@.width == w,
                    out@.height == h,
                    forall|x2: int, y2: int, c: int|
                        0 <= x2 < w && 0 <= y2 < h && 0 <= c < 3 && (y2 < y || (y2 == y && x2 < x))
                            ==> #[trigger] out@.sample(x2, y2, c) == self@.sample(
                            x0 + x2,
                            y0 + y2,
                            c,
                        ),
                decreases w - x,
            {
                let px = self.get_pixel(x0 + x, y0 + y);
                out.put_pixel(x, y, px);
                x = x + 1;
            }
            y = y + 1;
        }
        proof {
            let win = self@.clamped_window(left as nat, top as nat, width as nat, height as nat);
            lemma_window_pixels(self@, left as int, top as int, w as nat, h as nat);
            lemma_same_pixels_equal(out@, win);
        }
        out
    }

    /// Copies the centred window of `width` x `height` pixels. Where the margin is odd, the
    /// smaller half lies on the left, or on top.
    pub fn crop_centred(&self, width: u32, height: u32) -> (out: Image)
        requires
            width <= self@.width,
            height <= self@.height,
        ensures
            out@ == self@.window(
                (self@.width - width) / 2,
                (self@.height - height) / 2,
                width as nat,
                height as nat,
            ),
    {
        let (full_width, full_height) = self.dimensions();
        let left = (full_width - width) / 2;
        let top = (full_height - height) / 2;
        self.crop(left, top, width, height)
    }
}

/// Length of the part of a window of length `extent` starting at `start` that lies inside
/// an axis of length `size`.
pub open spec fn clamped_extent(size: nat, start: nat, extent: nat) -> nat {
    let from = if start < size { start } else { size };
    if extent < size - from { extent } else { (size - from) as nat }
}

impl Clone for Image {
    fn clone(&self) -> (copy: Self)
        ensures
            copy@ == self@,
    {
        proof {
            use_type_invariant(self);
        }
        Image { width: self.width, height: self.height, data: self.data.clone() }
    }
}

} // verus!
