//! Generation options and color conversion.
use vstd::prelude::*;

verus! {

/// Settings of one conversion.
#[derive(Clone, Copy)]
pub struct GenOptions {
    /// Footprint of one cell, in output units.
    pub size: u32,
    /// Vertical scale multiplier for elevations.
    pub scale: u32,
    /// Index of the brick asset (0 cube, 1 tile, 2 micro, 3 stud).
    pub asset: u32,
    /// Skip fully transparent tiles (and, in one layer, those at elevation 0).
    pub cull: bool,
    /// Tile-shaped bricks.
    pub tile: bool,
    /// Micro bricks.
    pub micro: bool,
    /// Studded bricks: thickness comes in steps of 5 instead of 2.
    pub stud: bool,
    /// Round positions and thicknesses up to the next multiple of 4.
    pub snap: bool,
    /// Flat image mode.
    pub img: bool,
    /// Glowing material.
    pub glow: bool,
    /// Elevations encoded in all four channels.
    pub hdmap: bool,
    /// Input colors are linear already.
    pub lrgb: bool,
    /// Disable collision.
    pub nocollide: bool,
    /// Run the 2x2 merge passes.
    pub quadtree: bool,
    /// Elevation above which each elevation gets a layer of its own; 0 for one layer.
    pub gen_full_layers_above_height: u32,
}

/// Linear-light value of each sRGB-encoded channel byte:
/// `floor(255 * ((c/255/1.055 + 0.0521327)^2.4))` above `c/255 = 0.04045`,
/// `floor(255 * c/255/12.192)` at or below it.
pub const LINEAR_GAMMA: [u8; 256] = [
    0, 0, 0, 0, 0, 0, 0, 0, 0, 0, 0, 0, 0, 1, 1, 1,
    1, 1, 1, 1, 1, 1, 2, 2, 2, 2, 2, 2, 2, 3, 3, 3,
    3, 3, 4, 4, 4, 4, 4, 5, 5, 5, 5, 6, 6, 6, 6, 7,
    7, 7, 8, 8, 8, 9, 9, 9, 10, 10, 10, 11, 11, 11, 12, 12,
    13, 13, 13, 14, 14, 15, 15, 16, 16, 16, 17, 17, 18, 18, 19, 19,
    20, 20, 21, 22, 22, 23, 23, 24, 24, 25, 26, 26, 27, 27, 28, 29,
    29, 30, 31, 31, 32, 33, 33, 34, 35, 36, 36, 37, 38, 38, 39, 40,
    41, 42, 42, 43, 44, 45, 46, 47, 47, 48, 49, 50, 51, 52, 53, 54,
    55, 55, 56, 57, 58, 59, 60, 61, 62, 63, 64, 65, 66, 67, 68, 70,
    71, 72, 73, 74, 75, 76, 77, 78, 80, 81, 82, 83, 84, 85, 87, 88,
    89, 90, 92, 93, 94, 95, 97, 98, 99, 101, 102, 103, 105, 106, 107, 109,
    110, 112, 113, 114, 116, 117, 119, 120, 122, 123, 125, 126, 128, 129, 131, 132,
    134, 135, 137, 139, 140, 142, 144, 145, 147, 148, 150, 152, 153, 155, 157, 159,
    160, 162, 164, 166, 167, 169, 171, 173, 175, 176, 178, 180, 182, 184, 186, 188,
    190, 192, 193, 195, 197, 199, 201, 203, 205, 207, 209, 211, 213, 215, 218, 220,
    222, 224, 226, 228, 230, 232, 235, 237, 239, 241, 243, 245, 248, 250, 252, 254,
];

/// Converts one channel from sRGB gamma to linear gamma.
pub fn to_linear_gamma(c: u8) -> (r: u8)
    ensures
        r == LINEAR_GAMMA@[c as int],
{
    LINEAR_GAMMA[c as usize]
}

/// An RGBA color with its color channels in linear gamma; alpha is kept.
pub open spec fn linear_rgb(rgb: [u8; 4]) -> [u8; 4] {
    [LINEAR_GAMMA@[rgb@[0] as int], LINEAR_GAMMA@[rgb@[1] as int], LINEAR_GAMMA@[rgb@[2] as int], rgb@[3]]
}

/// Converts the color channels of an RGBA color to linear gamma; alpha is kept.
pub fn to_linear_rgb(rgb: [u8; 4]) -> (r: [u8; 4])
    ensures
        r == linear_rgb(rgb),
        r@ == seq![
            LINEAR_GAMMA@[rgb@[0] as int],
            LINEAR_GAMMA@[rgb@[1] as int],
            LINEAR_GAMMA@[rgb@[2] as int],
            rgb@[3],
        ],
{
    let r = [to_linear_gamma(rgb[0]), to_linear_gamma(rgb[1]), to_linear_gamma(rgb[2]), rgb[3]];
    assert(r@ =~= seq![
        LINEAR_GAMMA@[rgb@[0] as int],
        LINEAR_GAMMA@[rgb@[1] as int],
        LINEAR_GAMMA@[rgb@[2] as int],
        rgb@[3],
    ]);
    r
}

} // verus!
