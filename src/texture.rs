//! Image textures: decoded RGB bytes and the nearest-texel lookup. Turning a
//! surface coordinate `(u, v)` into texel coordinates and a texel into a
//! colour is floating point and is left to the caller.
use vstd::prelude::*;

verus! {

/// What an image texture holds: `width * height` texels, three bytes (red,
/// green, blue) each, row after row from the top row of the picture.
pub struct TextureImage {
    pub data: Seq<u8>,
    pub width: int,
    pub height: int,
}

impl TextureImage {
    /// Sizes agree with the byte count.
    pub open spec fn valid(self) -> bool {
        &&& self.width >= 0
        &&& self.height >= 0
        &&& self.data.len() == 3 * self.width * self.height
    }

    /// The three bytes of the texel in column `x` of row `y`.
    pub open spec fn texel(self, x: int, y: int) -> (u8, u8, u8) {
        let o = 3 * (y * self.width + x);
        (self.data[o], self.data[o + 1], self.data[o + 2])
    }
}

/// `i` moved into `0..n`: values below are raised to the first index, values
/// above lowered to the last.
pub open spec fn clamp_index(i: int, n: int) -> int {
    if i < 0 {
        0
    } else if i >= n {
        n - 1
    } else {
        i
    }
}

/// Sizes an image texture accepts: the bytes are exactly three per texel, and
/// a row's byte count and the row count stay within `i32`.
pub open spec fn accepts_size(len: nat, width: u32, height: u32) -> bool {
    &&& len == 3 * width * height
    &&& 3 * width <= i32::MAX
    &&& height <= i32::MAX
}

/// The picture that an encoded image file holds, as RGB bytes with its width
/// and height, or `None` where the bytes do not decode.
pub uninterp spec fn rgb_decoded(encoded: Seq<u8>) -> Option<(Seq<u8>, u32, u32)>;

/// Relies on `image::load_from_memory` to decode a picture in any format the
/// crate knows, and on `DynamicImage::into_rgb8` to hand it over as RGB bytes.
/// The result depends on the encoded bytes alone.
#[verifier::external_body]
fn decode_rgb(encoded: &[u8]) -> (r: Option<(Vec<u8>, u32, u32)>)
    ensures
        r is None <==> rgb_decoded(encoded@) is None,
        r matches Some(d) ==> rgb_decoded(encoded@) == Some((d.0@, d.1, d.2)),
{
    match image::load_from_memory(encoded) {
        Ok(photo) => {
            let rgb = photo.into_rgb8();
            let (width, height) = (rgb.width(), rgb.height());
            Some((rgb.into_raw(), width, height))
        },
        Err(_) => None,
    }
}

pub struct ImageTexture {
    data: Vec<u8>,
    width: i32,
    height: i32,
    bytes_per_scanline: i32,
}

impl View for ImageTexture {
    type V = TextureImage;

    closed spec fn view(&self) -> TextureImage {
        TextureImage { data: self.data@, width: self.width as int, height: self.height as int }
    }
}

impl ImageTexture {
    pub closed spec fn wf(&self) -> bool {
        &&& self@.valid()
        &&& self.bytes_per_scanline == 3 * self.width
    }

    /// A texture without texels.
    pub fn new_0() -> (r: ImageTexture)
        ensures
            r.wf(),
            r@.data.len() == 0,
            r@.width == 0,
            r@.height == 0,
    {
        ImageTexture { data: Vec::new(), width: 0, height: 0, bytes_per_scanline: 0 }
    }

    /// A texture over decoded RGB bytes, or `None` where the sizes do not fit
    /// together (see `accepts_size`).
    pub fn from_rgb(data: Vec<u8>, width: u32, height: u32) -> (r: Option<ImageTexture>)
        ensures
            r is Some <==> accepts_size(data@.len(), width, height),
            r matches Some(t) ==> t.wf() && t@ == (TextureImage {
                data: data@,
                width: width as int,
                height: height as int,
            }),
    {
        let w = width as u64;
        let h = height as u64;
        if 3 * w > 0x7fff_ffff || h > 0x7fff_ffff {
            return None;
        }
        assert(3 * w * h <= 0x7fff_ffff * 0x7fff_ffff) by (nonlinear_arith)
            requires
                3 * w <= 0x7fff_ffff,
                h <= 0x7fff_ffff,
        ;
        if data.len() as u64 != 3 * w * h {
            return None;
        }
        let bytes_per_scanline = (3 * w) as i32;
        Some(
            ImageTexture {
                data,
                width: width as i32,
                height: height as i32,
                bytes_per_scanline,
            },
        )
    }

    /// The texture in an encoded image file: `None` where the bytes do not
    /// decode, or decode to a picture of sizes `from_rgb` refuses.
    pub fn new(encoded: &[u8]) -> (r: Option<ImageTexture>)
        ensures
            r is Some <==> (rgb_decoded(encoded@) matches Some(d) && accepts_size(
                d.0.len(),
                d.1,
                d.2,
            )),
            r matches Some(t) ==> t.wf() && (rgb_decoded(encoded@) matches Some(d) && t@ == (
            TextureImage { data: d.0, width: d.1 as int, height: d.2 as int })),
    {
        match decode_rgb(encoded) {
            Some((data, width, height)) => ImageTexture::from_rgb(data, width, height),
            None => None,
        }
    }

    /// Texels per row.
    pub fn width(&self) -> (r: i32)
        ensures
            r == self@.width,
    {
        self.width
    }

    /// Rows of texels.
    pub fn height(&self) -> (r: i32)
        ensures
            r == self@.height,
    {
        self.height
    }

    /// The texel nearest to column `i`, row `j` (counted from the top): the
    /// coordinates are clamped into the picture. `None` for a texture without
    /// texels.
    pub fn pixel(&self, i: i32, j: i32) -> (r: Option<(u8, u8, u8)>)
        requires
            self.wf(),
        ensures
            r is None <==> self@.width == 0 || self@.height == 0,
            r is Some ==> r == Some(
                self@.texel(clamp_index(i as int, self@.width), clamp_index(j as int, self@.height)),
            ),
    {
        if self.width <= 0 || self.height <= 0 {
            return None;
        }
        let x: i32 = if i < 0 {
            0
        } else if i >= self.width {
            self.width - 1
        } else {
            i
        };
        let y: i32 = if j < 0 {
            0
        } else if j >= self.height {
            self.height - 1
        } else {
            j
        };
        let ghost w = self.width as int;
        let ghost h = self.height as int;
        assert(3 * (y * w + x) + 2 < 3 * w * h) by (nonlinear_arith)
            requires
                0 <= x < w,
                0 <= y < h,
        ;
        assert(y * (3 * w) + x * 3 == 3 * (y * w + x)) by (nonlinear_arith);
        assert(y * (3 * w) <= 3 * (y * w + x)) by (nonlinear_arith)
            requires
                x >= 0,
        ;
        let len = self.data.len();
        assert(len == 3 * w * h);
        let o: usize = (y as usize) * (self.bytes_per_scanline as usize) + (x as usize) * 3;
        Some((self.data[o], self.data[o + 1], self.data[o + 2]))
    }
}

} // verus!
