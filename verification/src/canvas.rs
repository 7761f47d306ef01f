//! The canvas: a rectangle of RGB pixels, kept in an image buffer of the
//! `image` crate.
//!
//! Contracts speak of a canvas as its rows from the top, each row a sequence
//! of pixels from the left, each pixel a triple (red, green, blue).
use vstd::prelude::*;

verus! {

/// An image buffer of the `image` crate with 8-bit RGB pixels.
#[verifier::external_body]
pub struct Raster {
    img: image::RgbImage,
}

/// The pixels of a raster: `raster_rows(r)[y][x]` is the pixel in column `x`
/// of row `y`. There are as many rows as the image is high, and each is as
/// long as the image is wide.
pub uninterp spec fn raster_rows(r: Raster) -> Seq<Seq<(u8, u8, u8)>>;

/// `image::ImageBuffer::new` makes an image of the given width and height
/// whose pixels are all zero. It panics where the buffer of `3 * width *
/// height` bytes is larger than a vector can be.
#[verifier::external_body]
fn raster_new(width: u32, height: u32) -> (r: Raster)
    requires
        3 * width * height <= isize::MAX,
    ensures
        raster_rows(r) == Seq::new(
            height as nat,
            |y: int| Seq::new(width as nat, |x: int| (0u8, 0u8, 0u8)),
        ),
{
    Raster { img: image::RgbImage::new(width, height) }
}

/// `image::ImageBuffer::get_pixel_mut` hands out the pixel at `(x, y)` to be
/// written; the other pixels stay. It panics where `(x, y)` is outside the
/// image.
#[verifier::external_body]
fn raster_put(r: &mut Raster, x: u32, y: u32, color: (u8, u8, u8))
    requires
        y < raster_rows(*old(r)).len(),
        x < raster_rows(*old(r))[y as int].len(),
    ensures
        raster_rows(*final(r)) == raster_rows(*old(r)).update(
            y as int,
            raster_rows(*old(r))[y as int].update(x as int, color),
        ),
{
    *r.img.get_pixel_mut(x, y) = image::Rgb([color.0, color.1, color.2]);
}

/// `image::ImageBuffer::get_pixel` reads the pixel at `(x, y)`. It panics
/// where `(x, y)` is outside the image.
#[verifier::external_body]
fn raster_get(r: &Raster, x: u32, y: u32) -> (color: (u8, u8, u8))
    requires
        y < raster_rows(*r).len(),
        x < raster_rows(*r)[y as int].len(),
    ensures
        color == raster_rows(*r)[y as int][x as int],
{
    let pixel = r.img.get_pixel(x, y);
    (pixel.0[0], pixel.0[1], pixel.0[2])
}

/// The colour of an untouched canvas.
pub open spec fn white() -> (u8, u8, u8) {
    (255u8, 255u8, 255u8)
}

/// The colour of a stroke.
pub open spec fn black() -> (u8, u8, u8) {
    (0u8, 0u8, 0u8)
}

/// Whether `rows` are `height` rows of `width` pixels each.
pub open spec fn rectangular(rows: Seq<Seq<(u8, u8, u8)>>, width: int, height: int) -> bool {
    &&& rows.len() == height
    &&& forall|y: int| 0 <= y < height ==> (#[trigger] rows[y]).len() == width
}

/// The rows of a canvas of the given size that is all white.
pub open spec fn blank(width: int, height: int) -> Seq<Seq<(u8, u8, u8)>> {
    Seq::new(height as nat, |y: int| Seq::new(width as nat, |x: int| white()))
}

/// `rows` with the pixel at `(x, y)` set to `color`; `rows` itself where
/// they hold no such pixel.
pub open spec fn plot(rows: Seq<Seq<(u8, u8, u8)>>, x: int, y: int, color: (u8, u8, u8)) -> Seq<
    Seq<(u8, u8, u8)>,
> {
    if 0 <= y < rows.len() && 0 <= x < rows[y].len() {
        rows.update(y, rows[y].update(x, color))
    } else {
        rows
    }
}

/// The bytes of a row of pixels: red, green and blue of each, from the left.
pub open spec fn row_bytes(row: Seq<(u8, u8, u8)>) -> Seq<u8>
    decreases row.len(),
{
    if row.len() == 0 {
        Seq::empty()
    } else {
        row_bytes(row.drop_last()) + seq![row.last().0, row.last().1, row.last().2]
    }
}

/// The bytes of rows of pixels, row after row from the top.
pub open spec fn rgb_bytes(rows: Seq<Seq<(u8, u8, u8)>>) -> Seq<u8>
    decreases rows.len(),
{
    if rows.len() == 0 {
        Seq::empty()
    } else {
        rgb_bytes(rows.drop_last()) + row_bytes(rows.last())
    }
}

/// A canvas of a fixed width and height.
pub struct Canvas {
    width: u32,
    height: u32,
    raster: Raster,
}

impl View for Canvas {
    type V = Seq<Seq<(u8, u8, u8)>>;

    closed spec fn view(&self) -> Seq<Seq<(u8, u8, u8)>> {
        raster_rows(self.raster)
    }
}

impl Canvas {
    /// The width in pixels.
    pub closed spec fn spec_width(&self) -> u32 {
        self.width
    }

    /// The height in pixels.
    pub closed spec fn spec_height(&self) -> u32 {
        self.height
    }

    /// A canvas holds as many rows as it is high, each as long as it is wide.
    pub open spec fn wf(&self) -> bool {
        rectangular(self@, self.width() as int, self.height() as int)
    }

    /// A canvas of the given size with every pixel white.
    pub fn new(width: u32, height: u32) -> (canvas: Canvas)
        requires
            3 * width * height <= isize::MAX,
        ensures
            canvas.wf(),
            canvas.width() == width,
            canvas.height() == height,
            canvas@ == blank(width as int, height as int),
    {
        let mut raster = raster_new(width, height);
        let mut y: u32 = 0;
        while y < height
            invariant
                y <= height,
                rectangular(raster_rows(raster), width as int, height as int),
                forall|r: int, c: int|
                    0 <= r < y && 0 <= c < width ==> #[trigger] raster_rows(raster)[r][c]
                        == white(),
            decreases height - y,
        {
            let mut x: u32 = 0;
            while x < width
                invariant
                    x <= width,
                    y < height,
                    rectangular(raster_rows(raster), width as int, height as int),
                    forall|r: int, c: int|
                        0 <= r < y && 0 <= c < width ==> #[trigger] raster_rows(raster)[r][c]
                            == white(),
                    forall|c: int| 0 <= c < x ==> #[trigger] raster_rows(raster)[y as int][c] == white(),
                decreases width - x,
            {
                raster_put(&mut raster, x, y, (255, 255, 255));
                x = x + 1;
            }
            y = y + 1;
        }
        assert(raster_rows(raster) =~~= blank(width as int, height as int));
        Canvas { width, height, raster }
    }

    /// The width in pixels.
    #[verifier::when_used_as_spec(spec_width)]
    pub fn width(&self) -> (w: u32)
        ensures
            w == self.width(),
    {
        self.width
    }

    /// The height in pixels.
    #[verifier::when_used_as_spec(spec_height)]
    pub fn height(&self) -> (h: u32)
        ensures
            h == self.height(),
    {
        self.height
    }

    /// The pixel in column `x` of row `y`.
    pub fn pixel(&self, x: u32, y: u32) -> (color: (u8, u8, u8))
        requires
            self.wf(),
            x < self.width(),
            y < self.height(),
        ensures
            color == self@[y as int][x as int],
    {
        raster_get(&self.raster, x, y)
    }

    /// Sets the pixel in column `x` of row `y` to `color`.
    pub fn paint(&mut self, x: u32, y: u32, color: (u8, u8, u8))
        requires
            old(self).wf(),
            x < old(self).width(),
            y < old(self).height(),
        ensures
            final(self).wf(),
            final(self).width() == old(self).width(),
            final(self).height() == old(self).height(),
            final(self)@ == plot(old(self)@, x as int, y as int, color),
    {
        raster_put(&mut self.raster, x, y, color);
    }

    /// The pixels as bytes, row after row from the top, each pixel as its
    /// red, green and blue byte.
    pub fn to_rgb(&self) -> (bytes: Vec<u8>)
        requires
            self.wf(),
        ensures
            bytes@ == rgb_bytes(self@),
            bytes.len() == 3 * self.width() * self.height(),
    {
        let mut bytes: Vec<u8> = Vec::new();
        let mut y: u32 = 0;
        while y < self.height
            invariant
                self.wf(),
                y <= self.height,
                bytes@ == rgb_bytes(self@.take(y as int)),
            decreases self.height - y,
        {
            let mut x: u32 = 0;
            assert(self@[y as int].take(0) == Seq::<(u8, u8, u8)>::empty());
            while x < self.width
                invariant
                    self.wf(),
                    y < self.height,
                    x <= self.width,
                    bytes@ == rgb_bytes(self@.take(y as int)) + row_bytes(
                        self@[y as int].take(x as int),
                    ),
                decreases self.width - x,
            {
                let color = raster_get(&self.raster, x, y);
                bytes.push(color.0);
                bytes.push(color.1);
                bytes.push(color.2);
                proof {
                    let row = self@[y as int];
                    assert(row.take(x + 1).drop_last() == row.take(x as int));
                    assert(bytes@ == rgb_bytes(self@.take(y as int)) + (row_bytes(
                        row.take(x as int),
                    ) + seq![color.0, color.1, color.2]));
                }
                x = x + 1;
            }
            proof {
                assert(self@[y as int].take(x as int) == self@[y as int]);
                assert(self@.take(y + 1).drop_last() == self@.take(y as int));
            }
            y = y + 1;
        }
        proof {
            assert(self@.take(y as int) == self@);
            lemma_rgb_bytes_len(self@, self.width as int, self.height as int);
        }
        bytes
    }
}

proof fn lemma_row_bytes_len(row: Seq<(u8, u8, u8)>)
    ensures
        row_bytes(row).len() == 3 * row.len(),
    decreases row.len(),
{
    if row.len() > 0 {
        lemma_row_bytes_len(row.drop_last());
    }
}

/// A rectangle of pixels has three bytes for each of them.
pub proof fn lemma_rgb_bytes_len(rows: Seq<Seq<(u8, u8, u8)>>, width: int, height: int)
    requires
        rectangular(rows, width, height),
    ensures
        rgb_bytes(rows).len() == 3 * width * height,
    decreases rows.len(),
{
    if rows.len() > 0 {
        lemma_rgb_bytes_len(rows.drop_last(), width, height - 1);
        lemma_row_bytes_len(rows.last());
        assert(3 * width * (height - 1) + 3 * width == 3 * width * height) by (nonlinear_arith);
    } else {
        assert(3 * width * height == 0) by (nonlinear_arith)
            requires
                height == 0,
        ;
    }
}

} // verus!
