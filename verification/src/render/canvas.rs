//! Canvases: pixel grids of fixed size that the renderer paints on.
//!
//! A canvas keeps its pixels in an image buffer of the `image` crate. The verifier
//! does not look inside that buffer: what it knows of a canvas is its view, a
//! [`Picture`], and the contracts of the few buffer operations declared here.

use vstd::prelude::*;

verus! {

/// A colour of three 8-bit channels: red, green, blue.
#[derive(Clone, Copy, Debug, PartialEq, Eq)]
pub struct Rgb(pub [u8; 3]);

/// A colour of four 8-bit channels: red, green, blue, opacity.
#[derive(Clone, Copy, Debug, PartialEq, Eq)]
pub struct Rgba(pub [u8; 4]);

/// What a canvas holds, as a mathematical value: its size and the colour at each
/// position `(x, y)` with `0 <= x < width` and `0 <= y < height`.
pub struct Picture<C> {
    pub width: nat,
    pub height: nat,
    pub pixels: Map<(int, int), C>,
}

/// The positions of a picture of the given size.
pub open spec fn positions(width: nat, height: nat) -> Set<(int, int)> {
    Set::new(|p: (int, int)| 0 <= p.0 < width && 0 <= p.1 < height)
}

impl<C> Picture<C> {
    /// Whether `(x, y)` is a position of the picture.
    pub open spec fn contains(self, x: int, y: int) -> bool {
        0 <= x < self.width && 0 <= y < self.height
    }

    /// Whether the picture has a colour at each of its positions and nowhere else.
    pub open spec fn wf(self) -> bool {
        self.pixels.dom() == positions(self.width, self.height)
    }

    /// The picture with every position of `region` set to `color`. What `region`
    /// holds beyond the picture is left out.
    pub open spec fn fill(self, region: Set<(int, int)>, color: C) -> Picture<C> {
        Picture {
            width: self.width,
            height: self.height,
            pixels: Map::new(
                |p: (int, int)| self.pixels.dom().contains(p),
                |p: (int, int)|
                    if region.contains(p) {
                        color
                    } else {
                        self.pixels[p]
                    },
            ),
        }
    }

    /// The picture with the position `(x, y)` set to `color`.
    pub open spec fn put(self, x: int, y: int, color: C) -> Picture<C> {
        Picture {
            width: self.width,
            height: self.height,
            pixels: self.pixels.insert((x, y), color),
        }
    }
}

/// A pixel grid that can be painted on.
pub trait Canvas {
    /// What a pixel holds.
    type Color: Copy;

    /// What the canvas holds.
    spec fn picture(&self) -> Picture<Self::Color>;

    /// The number of columns. A canvas is always well formed.
    fn width(&self) -> (width: u32)
        ensures
            width == self.picture().width,
            self.picture().wf(),
    ;

    /// The number of rows. A canvas is always well formed.
    fn height(&self) -> (height: u32)
        ensures
            height == self.picture().height,
            self.picture().wf(),
    ;

    /// Sets the pixel at `(x, y)` to `color`.
    fn put_pixel(&mut self, x: u32, y: u32, color: Self::Color)
        requires
            old(self).picture().contains(x as int, y as int),
        ensures
            final(self).picture() == old(self).picture().put(x as int, y as int, color),
    ;
}

/// A canvas of [`Rgb`] pixels. It holds an `image::RgbImage`, of which only the
/// size and the pixels are spoken of, by the three names below.
#[verifier::external_body]
pub struct RgbCanvas {
    buffer: image::RgbImage,
}

/// The width of the buffer inside an [`RgbCanvas`].
pub uninterp spec fn rgb_width(canvas: RgbCanvas) -> nat;

/// The height of the buffer inside an [`RgbCanvas`].
pub uninterp spec fn rgb_height(canvas: RgbCanvas) -> nat;

/// The pixels of the buffer inside an [`RgbCanvas`], by position.
pub uninterp spec fn rgb_pixels(canvas: RgbCanvas) -> Map<(int, int), Rgb>;

impl View for RgbCanvas {
    type V = Picture<Rgb>;

    open spec fn view(&self) -> Picture<Rgb> {
        Picture { width: rgb_width(*self), height: rgb_height(*self), pixels: rgb_pixels(*self) }
    }
}

/// `image::ImageBuffer::new`: a buffer of the given size whose samples are all zero.
/// The call multiplies the count of channels by the width and then by the height,
/// and panics when either product does not fit in `usize`; the vector that it
/// then makes panics when it is to hold more than `isize::MAX` bytes.
#[verifier::external_body]
fn rgb_new(width: u32, height: u32) -> (canvas: RgbCanvas)
    requires
        3 * width <= usize::MAX,
        3 * width * height <= isize::MAX,
    ensures
        rgb_width(canvas) == width,
        rgb_height(canvas) == height,
        rgb_pixels(canvas).dom() == positions(width as nat, height as nat),
        forall|x: int, y: int|
            0 <= x < width && 0 <= y < height ==> #[trigger] rgb_pixels(canvas)[(x, y)] == Rgb(
                [0u8, 0u8, 0u8],
            ),
{
    RgbCanvas { buffer: image::RgbImage::new(width, height) }
}

/// `image::ImageBuffer::width`: the width the buffer was made with.
#[verifier::external_body]
fn rgb_get_width(canvas: &RgbCanvas) -> (width: u32)
    ensures
        width == rgb_width(*canvas),
{
    canvas.buffer.width()
}

/// `image::ImageBuffer::height`: the height the buffer was made with.
#[verifier::external_body]
fn rgb_get_height(canvas: &RgbCanvas) -> (height: u32)
    ensures
        height == rgb_height(*canvas),
{
    canvas.buffer.height()
}

/// `image::ImageBuffer::get_pixel`: the pixel at `(x, y)`. The call panics when
/// the position is outside the buffer.
#[verifier::external_body]
fn rgb_get_pixel(canvas: &RgbCanvas, x: u32, y: u32) -> (color: Rgb)
    requires
        x < rgb_width(*canvas),
        y < rgb_height(*canvas),
    ensures
        color == rgb_pixels(*canvas)[(x as int, y as int)],
{
    Rgb(canvas.buffer.get_pixel(x, y).0)
}

/// `image::ImageBuffer::put_pixel`: overwrites the pixel at `(x, y)` and leaves
/// every other pixel and the size as they were. The call panics when the position
/// is outside the buffer.
#[verifier::external_body]
fn rgb_put_pixel(canvas: &mut RgbCanvas, x: u32, y: u32, color: Rgb)
    requires
        x < rgb_width(*old(canvas)),
        y < rgb_height(*old(canvas)),
    ensures
        rgb_width(*final(canvas)) == rgb_width(*old(canvas)),
        rgb_height(*final(canvas)) == rgb_height(*old(canvas)),
        rgb_pixels(*final(canvas)) == rgb_pixels(*old(canvas)).insert((x as int, y as int), color),
{
    canvas.buffer.put_pixel(x, y, image::Rgb(color.0))
}

impl RgbCanvas {
    /// Whether the canvas has a colour at each of its positions and nowhere else.
    #[verifier::type_invariant]
    spec fn well_formed(&self) -> bool {
        self@.wf()
    }

    /// A canvas of the given size with every pixel black. A row of samples, three
    /// for each pixel, must not outgrow `usize`, nor all samples `isize`.
    pub fn new(width: u32, height: u32) -> (canvas: RgbCanvas)
        requires
            3 * width <= usize::MAX,
            3 * width * height <= isize::MAX,
        ensures
            canvas@.width == width,
            canvas@.height == height,
            canvas@.wf(),
            forall|x: int, y: int|
                canvas@.contains(x, y) ==> #[trigger] canvas@.pixels[(x, y)] == Rgb([0u8, 0u8, 0u8]),
    {
        rgb_new(width, height)
    }

    /// The colour at `(x, y)`.
    pub fn get_pixel(&self, x: u32, y: u32) -> (color: Rgb)
        requires
            self@.contains(x as int, y as int),
        ensures
            color == self@.pixels[(x as int, y as int)],
            self@.wf(),
    {
        proof {
            use_type_invariant(self);
        }
        rgb_get_pixel(self, x, y)
    }
}

impl Canvas for RgbCanvas {
    type Color = Rgb;

    open spec fn picture(&self) -> Picture<Rgb> {
        self@
    }

    fn width(&self) -> (width: u32) {
        proof {
            use_type_invariant(self);
        }
        rgb_get_width(self)
    }

    fn height(&self) -> (height: u32) {
        proof {
            use_type_invariant(self);
        }
        rgb_get_height(self)
    }

    fn put_pixel(&mut self, x: u32, y: u32, color: Rgb) {
        proof {
            use_type_invariant(&*self);
        }
        rgb_put_pixel(self, x, y, color);
        assert(self@.pixels.dom() =~= old(self)@.pixels.dom());
    }
}

/// A canvas of [`Rgba`] pixels. It holds an `image::RgbaImage`, of which only the
/// size and the pixels are spoken of, by the three names below.
#[verifier::external_body]
pub struct RgbaCanvas {
    buffer: image::RgbaImage,
}

/// The width of the buffer inside an [`RgbaCanvas`].
pub uninterp spec fn rgba_width(canvas: RgbaCanvas) -> nat;

/// The height of the buffer inside an [`RgbaCanvas`].
pub uninterp spec fn rgba_height(canvas: RgbaCanvas) -> nat;

/// The pixels of the buffer inside an [`RgbaCanvas`], by position.
pub uninterp spec fn rgba_pixels(canvas: RgbaCanvas) -> Map<(int, int), Rgba>;

impl View for RgbaCanvas {
    type V = Picture<Rgba>;

    open spec fn view(&self) -> Picture<Rgba> {
        Picture { width: rgba_width(*self), height: rgba_height(*self), pixels: rgba_pixels(*self) }
    }
}

/// `image::ImageBuffer::new`: a buffer of the given size whose samples are all zero.
/// The call multiplies the count of channels by the width and then by the height,
/// and panics when either product does not fit in `usize`; the vector that it
/// then makes panics when it is to hold more than `isize::MAX` bytes.
#[verifier::external_body]
fn rgba_new(width: u32, height: u32) -> (canvas: RgbaCanvas)
    requires
        4 * width <= usize::MAX,
        4 * width * height <= isize::MAX,
    ensures
        rgba_width(canvas) == width,
        rgba_height(canvas) == height,
        rgba_pixels(canvas).dom() == positions(width as nat, height as nat),
        forall|x: int, y: int|
            0 <= x < width && 0 <= y < height ==> #[trigger] rgba_pixels(canvas)[(x, y)] == Rgba(
                [0u8, 0u8, 0u8, 0u8],
            ),
{
    RgbaCanvas { buffer: image::RgbaImage::new(width, height) }
}

/// `image::ImageBuffer::width`: the width the buffer was made with.
#[verifier::external_body]
fn rgba_get_width(canvas: &RgbaCanvas) -> (width: u32)
    ensures
        width == rgba_width(*canvas),
{
    canvas.buffer.width()
}

/// `image::ImageBuffer::height`: the height the buffer was made with.
#[verifier::external_body]
fn rgba_get_height(canvas: &RgbaCanvas) -> (height: u32)
    ensures
        height == rgba_height(*canvas),
{
    canvas.buffer.height()
}

/// `image::ImageBuffer::get_pixel`: the pixel at `(x, y)`. The call panics when
/// the position is outside the buffer.
#[verifier::external_body]
fn rgba_get_pixel(canvas: &RgbaCanvas, x: u32, y: u32) -> (color: Rgba)
    requires
        x < rgba_width(*canvas),
        y < rgba_height(*canvas),
    ensures
        color == rgba_pixels(*canvas)[(x as int, y as int)],
{
    Rgba(canvas.buffer.get_pixel(x, y).0)
}

/// `image::ImageBuffer::put_pixel`: overwrites the pixel at `(x, y)` and leaves
/// every other pixel and the size as they were. The call panics when the position
/// is outside the buffer.
#[verifier::external_body]
fn rgba_put_pixel(canvas: &mut RgbaCanvas, x: u32, y: u32, color: Rgba)
    requires
        x < rgba_width(*old(canvas)),
        y < rgba_height(*old(canvas)),
    ensures
        rgba_width(*final(canvas)) == rgba_width(*old(canvas)),
        rgba_height(*final(canvas)) == rgba_height(*old(canvas)),
        rgba_pixels(*final(canvas)) == rgba_pixels(*old(canvas)).insert((x as int, y as int), color),
{
    canvas.buffer.put_pixel(x, y, image::Rgba(color.0))
}

impl RgbaCanvas {
    /// Whether the canvas has a colour at each of its positions and nowhere else.
    #[verifier::type_invariant]
    spec fn well_formed(&self) -> bool {
        self@.wf()
    }

    /// A canvas of the given size with every pixel black and fully transparent. A
    /// row of samples, four for each pixel, must not outgrow `usize`, nor all
    /// samples `isize`.
    pub fn new(width: u32, height: u32) -> (canvas: RgbaCanvas)
        requires
            4 * width <= usize::MAX,
            4 * width * height <= isize::MAX,
        ensures
            canvas@.width == width,
            canvas@.height == height,
            canvas@.wf(),
            forall|x: int, y: int|
                canvas@.contains(x, y) ==> #[trigger] canvas@.pixels[(x, y)] == Rgba([0u8, 0u8, 0u8, 0u8]),
    {
        rgba_new(width, height)
    }

    /// The colour at `(x, y)`.
    pub fn get_pixel(&self, x: u32, y: u32) -> (color: Rgba)
        requires
            self@.contains(x as int, y as int),
        ensures
            color == self@.pixels[(x as int, y as int)],
            self@.wf(),
    {
        proof {
            use_type_invariant(self);
        }
        rgba_get_pixel(self, x, y)
    }
}

impl Canvas for RgbaCanvas {
    type Color = Rgba;

    open spec fn picture(&self) -> Picture<Rgba> {
        self@
    }

    fn width(&self) -> (width: u32) {
        proof {
            use_type_invariant(self);
        }
        rgba_get_width(self)
    }

    fn height(&self) -> (height: u32) {
        proof {
            use_type_invariant(self);
        }
        rgba_get_height(self)
    }

    fn put_pixel(&mut self, x: u32, y: u32, color: Rgba) {
        proof {
            use_type_invariant(&*self);
        }
        rgba_put_pixel(self, x, y, color);
        assert(self@.pixels.dom() =~= old(self)@.pixels.dom());
    }
}

} // verus!
