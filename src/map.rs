//! Sample providers: where elevations and colors come from.
use crate::util::{linear_rgb, to_linear_rgb};
use vstd::prelude::*;

verus! {

/// Elevation samples over a rectangular domain.
pub trait Heightmap {
    /// Width and depth of the domain.
    spec fn spec_size(&self) -> (u32, u32);

    /// Elevation at `(x, y)`.
    spec fn spec_at(&self, x: u32, y: u32) -> u32;

    /// Elevation at `(x, y)`, a cell of the domain.
    fn at(&self, x: u32, y: u32) -> (r: u32)
        requires
            x < self.spec_size().0,
            y < self.spec_size().1,
        ensures
            r == self.spec_at(x, y),
    ;

    /// Width and depth of the domain.
    fn size(&self) -> (r: (u32, u32))
        ensures
            r == self.spec_size(),
    ;
}

/// RGBA color samples over a rectangular domain.
pub trait Colormap {
    /// Width and depth of the domain.
    spec fn spec_size(&self) -> (u32, u32);

    /// Color at `(x, y)`.
    spec fn spec_at(&self, x: u32, y: u32) -> [u8; 4];

    /// Color at `(x, y)`, a cell of the domain.
    fn at(&self, x: u32, y: u32) -> (r: [u8; 4])
        requires
            x < self.spec_size().0,
            y < self.spec_size().1,
        ensures
            r == self.spec_at(x, y),
    ;

    /// Width and depth of the domain.
    fn size(&self) -> (r: (u32, u32))
        ensures
            r == self.spec_size(),
    ;
}

/// A flat elevation field: every cell stands at elevation 1.
pub struct HeightmapFlat {
    width: u32,
    height: u32,
}

impl Heightmap for HeightmapFlat {
    closed spec fn spec_size(&self) -> (u32, u32) {
        (self.width, self.height)
    }

    open spec fn spec_at(&self, x: u32, y: u32) -> u32 {
        1
    }

    fn at(&self, _x: u32, _y: u32) -> (r: u32) {
        1
    }

    fn size(&self) -> (r: (u32, u32)) {
        (self.width, self.height)
    }
}

impl HeightmapFlat {
    /// A flat field of the given width and depth; never fails.
    pub fn new(dims: (u32, u32)) -> (r: Result<Self, String>)
        ensures
            r is Ok,
            r matches Ok(m) ==> m.spec_size() == dims && forall|x: u32, y: u32| #[trigger] m.spec_at(x, y) == 1,
    {
        Ok(HeightmapFlat { width: dims.0, height: dims.1 })
    }
}

} // verus!

verus! {

/// Decoded RGBA pixels of one image, row by row.
pub struct Pixels {
    width: u32,
    height: u32,
    data: Vec<[u8; 4]>,
}

impl Pixels {
    #[verifier::type_invariant]
    spec fn inv(&self) -> bool {
        self.data@.len() == self.width * self.height
    }

    pub closed spec fn spec_width(&self) -> u32 {
        self.width
    }

    pub closed spec fn spec_height(&self) -> u32 {
        self.height
    }

    /// The pixel at column `x` of row `y`.
    pub closed spec fn spec_pixel(&self, x: u32, y: u32) -> [u8; 4] {
        self.data@[y * self.width + x]
    }

    /// Pixels of a `width` by `height` image, given row by row; `None` when
    /// `data` does not hold exactly `width * height` of them.
    pub fn new(width: u32, height: u32, data: Vec<[u8; 4]>) -> (r: Option<Self>)
        ensures
            r is Some <==> data@.len() == width * height,
            r matches Some(p) ==> p.spec_width() == width && p.spec_height() == height && forall|
                x: u32,
                y: u32,
            | x < width && y < height ==> #[trigger] p.spec_pixel(x, y) == data@[y * width + x],
    {
        proof {
            assert(width * height <= 0xffff_ffff * 0xffff_ffff) by (nonlinear_arith)
                requires
                    width <= 0xffff_ffff,
                    height <= 0xffff_ffff,
            ;
        }
        if data.len() as u64 == width as u64 * height as u64 {
            Some(Pixels { width, height, data })
        } else {
            None
        }
    }

    pub fn width(&self) -> (r: u32)
        ensures
            r == self.spec_width(),
    {
        self.width
    }

    pub fn height(&self) -> (r: u32)
        ensures
            r == self.spec_height(),
    {
        self.height
    }

    /// The pixel at column `x` of row `y`.
    pub fn pixel(&self, x: u32, y: u32) -> (r: [u8; 4])
        requires
            x < self.spec_width(),
            y < self.spec_height(),
        ensures
            r == self.spec_pixel(x, y),
    {
        proof {
            use_type_invariant(self);
            assert(y * self.width + x < self.width * self.height) by (nonlinear_arith)
                requires
                    x < self.width,
                    y < self.height,
            ;
        }
        let n = self.data.len();
        proof {
            assert(y * self.width <= y * self.width + x);
        }
        self.data[(y as u64 * self.width as u64 + x as u64) as usize]
    }
}

/// The four bytes as a big-endian integer.
pub open spec fn be_u32(b: [u8; 4]) -> u32 {
    (b[0] * 0x100_0000 + b[1] * 0x1_0000 + b[2] * 0x100 + b[3]) as u32
}

/// Relies on byteorder's `BigEndian::read_u32`: the first four bytes read
/// as a big-endian integer.
#[verifier::external_body]
fn read_be_u32(b: &[u8; 4]) -> (r: u32)
    ensures
        r == be_u32(*b),
{
    <byteorder::BigEndian as byteorder::ByteOrder>::read_u32(b)
}

/// Elevation one image gives at `(x, y)`: all four bytes as a big-endian
/// integer when RGBA-encoded, else the red channel.
pub open spec fn image_height(p: Pixels, x: u32, y: u32, rgba_encoded: bool) -> u32 {
    if rgba_encoded {
        be_u32(p.spec_pixel(x, y))
    } else {
        p.spec_pixel(x, y)[0] as u32
    }
}

/// Sum of the images' elevations at `(x, y)`, wrapping modulo 2^32.
pub open spec fn height_sum(maps: Seq<Pixels>, x: u32, y: u32, rgba_encoded: bool) -> u32
    decreases maps.len(),
{
    if maps.len() == 0 {
        0
    } else {
        let s = height_sum(maps.drop_last(), x, y, rgba_encoded) + image_height(
            maps.last(),
            x,
            y,
            rgba_encoded,
        );
        (s % 0x1_0000_0000) as u32
    }
}

/// Elevations read from one or more images of equal size, summed.
pub struct HeightmapPNG {
    maps: Vec<Pixels>,
    rgba_encoded: bool,
}

impl HeightmapPNG {
    #[verifier::type_invariant]
    spec fn inv(&self) -> bool {
        &&& self.maps@.len() >= 1
        &&& forall|i: int|
            0 <= i < self.maps@.len() ==> (#[trigger] self.maps@[i]).spec_width()
                == self.maps@[0].spec_width() && self.maps@[i].spec_height()
                == self.maps@[0].spec_height()
    }

    pub closed spec fn spec_maps(&self) -> Seq<Pixels> {
        self.maps@
    }

    pub closed spec fn spec_rgba_encoded(&self) -> bool {
        self.rgba_encoded
    }

    /// An elevation field from decoded images; fails when there is none or
    /// their sizes differ.
    pub fn new(maps: Vec<Pixels>, rgba_encoded: bool) -> (r: Result<Self, String>)
        ensures
            maps@.len() == 0 ==> r is Err && r->Err_0@ == "HeightmapPNG requires at least one image"@,
            maps@.len() > 0 ==> (r is Ok <==> forall|i: int|
                0 <= i < maps@.len() ==> (#[trigger] maps@[i]).spec_width() == maps@[0].spec_width()
                    && maps@[i].spec_height() == maps@[0].spec_height()),
            r is Err && maps@.len() > 0 ==> r->Err_0@ == "Mismatched heightmap sizes"@,
            r matches Ok(m) ==> m.spec_maps() == maps@ && m.spec_rgba_encoded() == rgba_encoded,
    {
        if maps.len() == 0 {
            return Err("HeightmapPNG requires at least one image".to_string());
        }
        let width = maps[0].width();
        let height = maps[0].height();
        let mut i: usize = 0;
        while i < maps.len()
            invariant
                i <= maps@.len(),
                maps@.len() >= 1,
                width == maps@[0].spec_width(),
                height == maps@[0].spec_height(),
                forall|j: int|
                    0 <= j < i ==> (#[trigger] maps@[j]).spec_width() == width && maps@[j].spec_height()
                        == height,
            decreases maps.len() - i,
        {
            if maps[i].width() != width || maps[i].height() != height {
                return Err("Mismatched heightmap sizes".to_string());
            }
            i += 1;
        }
        Ok(HeightmapPNG { maps, rgba_encoded })
    }
}

impl Heightmap for HeightmapPNG {
    open spec fn spec_size(&self) -> (u32, u32) {
        (self.spec_maps()[0].spec_width(), self.spec_maps()[0].spec_height())
    }

    open spec fn spec_at(&self, x: u32, y: u32) -> u32 {
        height_sum(self.spec_maps(), x, y, self.spec_rgba_encoded())
    }

    fn at(&self, x: u32, y: u32) -> (r: u32) {
        proof {
            use_type_invariant(self);
        }
        let mut sum: u32 = 0;
        let mut i: usize = 0;
        while i < self.maps.len()
            invariant
                i <= self.maps@.len(),
                self.maps@.len() >= 1,
                x < self.maps@[0].spec_width(),
                y < self.maps@[0].spec_height(),
                forall|j: int|
                    0 <= j < self.maps@.len() ==> (#[trigger] self.maps@[j]).spec_width()
                        == self.maps@[0].spec_width() && self.maps@[j].spec_height()
                        == self.maps@[0].spec_height(),
                sum == height_sum(self.maps@.subrange(0, i as int), x, y, self.rgba_encoded),
            decreases self.maps.len() - i,
        {
            let m = &self.maps[i];
            let v: u32 = if self.rgba_encoded {
                read_be_u32(&m.pixel(x, y))
            } else {
                m.pixel(x, y)[0] as u32
            };
            proof {
                let pre = self.maps@.subrange(0, i + 1);
                assert(pre.drop_last() =~= self.maps@.subrange(0, i as int));
                assert(pre.last() == self.maps@[i as int]);
            }
            sum = sum.wrapping_add(v);
            i += 1;
        }
        proof {
            assert(self.maps@.subrange(0, i as int) =~= self.maps@);
        }
        sum
    }

    fn size(&self) -> (r: (u32, u32)) {
        proof {
            use_type_invariant(self);
        }
        (self.maps[0].width(), self.maps[0].height())
    }
}

/// Colors read from one image, converted to linear gamma unless they are
/// linear already.
pub struct ColormapPNG {
    source: Pixels,
    lrgb: bool,
}

/// Color the image gives at `(x, y)`.
pub open spec fn image_color(p: Pixels, x: u32, y: u32, lrgb: bool) -> [u8; 4] {
    let c = p.spec_pixel(x, y);
    if lrgb {
        c
    } else {
        linear_rgb(c)
    }
}

impl ColormapPNG {
    pub closed spec fn spec_source(&self) -> Pixels {
        self.source
    }

    pub closed spec fn spec_lrgb(&self) -> bool {
        self.lrgb
    }

    /// A color field from a decoded image; `lrgb` says its colors are linear already.
    pub fn new(source: Pixels, lrgb: bool) -> (r: Self)
        ensures
            r.spec_source() == source,
            r.spec_lrgb() == lrgb,
    {
        ColormapPNG { source, lrgb }
    }
}

impl Colormap for ColormapPNG {
    open spec fn spec_size(&self) -> (u32, u32) {
        (self.spec_source().spec_width(), self.spec_source().spec_height())
    }

    open spec fn spec_at(&self, x: u32, y: u32) -> [u8; 4] {
        image_color(self.spec_source(), x, y, self.spec_lrgb())
    }

    fn at(&self, x: u32, y: u32) -> (r: [u8; 4]) {
        let c = self.source.pixel(x, y);
        if self.lrgb {
            c
        } else {
            to_linear_rgb(c)
        }
    }

    fn size(&self) -> (r: (u32, u32)) {
        (self.source.width(), self.source.height())
    }
}

} // verus!
