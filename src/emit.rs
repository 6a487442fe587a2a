//! Turning live tiles into stacked, size-bounded bricks.
use crate::quad::{Level, QuadTree};
use crate::tile::{is_live, layer_view, Tile, TileView};
use crate::util::GenOptions;
use vstd::prelude::*;

verus! {

/// Collision flags of a brick.
#[derive(Clone, Copy, Debug, PartialEq, Eq)]
pub struct Collision {
    pub player: bool,
    pub weapon: bool,
    pub interaction: bool,
    pub tool: bool,
}

/// One output brick: an axis-aligned box with position, extent, color and flags.
#[derive(Clone, Copy, Debug, PartialEq, Eq)]
pub struct Brick {
    pub asset_name_index: u32,
    /// Width, depth and thickness.
    pub size: (u32, u32, u32),
    /// Center of the footprint, and vertical position.
    pub position: (i32, i32, i32),
    pub collision: Collision,
    /// RGBA color.
    pub color: [u8; 4],
    pub owner_index: u32,
    pub material_intensity: u32,
    pub material_index: u32,
}

/// The step in which brick thickness comes: 5 for studded bricks, else 2.
pub open spec fn min_unit(stud: bool) -> int {
    if stud {
        5
    } else {
        2
    }
}

/// `a` rounded up to a multiple of `m`.
pub open spec fn round_up(a: int, m: int) -> int {
    a + (m - a % m) % m
}

/// `a` rounded up to the next multiple of 4 (a multiple of 4 moves up by 4).
pub open spec fn snap_up(a: int) -> int {
    a + 4 - a % 4
}

/// Thickness of the next brick while `desired` remains: clamped to
/// `[unit, 250]`, then rounded up to a multiple of the unit.
pub open spec fn segment_thickness(desired: int, stud: bool) -> int {
    let m = min_unit(stud);
    let a = if desired < m {
        m
    } else if desired > 250 {
        250
    } else {
        desired
    };
    round_up(a, m)
}

/// The bricks of one stack, top down, as `(thickness, z)`: each is as thick as
/// `segment_thickness` allows, and the next one sits `2 * thickness` lower.
pub open spec fn segments(desired: int, z: int, stud: bool) -> Seq<(int, int)>
    decreases desired + 250,
{
    if desired <= 0 {
        seq![]
    } else {
        let t = segment_thickness(desired, stud);
        seq![(t, z)] + segments(desired - t, z - 2 * t, stud)
    }
}

/// Top of a tile's stack, in output units.
pub open spec fn top_z(t: TileView, o: GenOptions) -> int {
    let z = o.scale * t.height;
    if o.snap {
        snap_up(z)
    } else {
        z
    }
}

/// Thickness a tile's stack should have, relative to the layer's elevation `offset`.
pub open spec fn desired_thickness(t: TileView, o: GenOptions, offset: u32) -> int {
    let raw = if t.height - offset + 1 > 2 {
        t.height - offset + 1
    } else {
        2
    };
    let d = if raw * o.scale / 2 > 2 {
        raw * o.scale / 2
    } else {
        2
    };
    if o.snap {
        snap_up(d)
    } else {
        d
    }
}

/// The correction applied in layers whose elevation offset is not zero.
pub open spec fn pos_adjust(offset: u32) -> int {
    if offset != 0 {
        4
    } else {
        0
    }
}

/// The brick of thickness `th` whose stack cursor is at `z`. In a layer with
/// a correction, the thickness loses 4 units, floored at 0; positions and
/// widths beyond the fields' width are truncated.
pub open spec fn brick_of(t: TileView, o: GenOptions, offset: u32, th: int, z: int) -> Brick {
    let pa = pos_adjust(offset);
    Brick {
        asset_name_index: o.asset,
        size: (
            (t.size.0 * o.size) as u32,
            (t.size.1 * o.size) as u32,
            if o.img && o.micro {
                o.size
            } else if th >= pa {
                (th - pa) as u32
            } else {
                0
            },
        ),
        position: (
            ((t.center.0 * 2 + t.size.0) * o.size) as i32,
            ((t.center.1 * 2 + t.size.1) * o.size) as i32,
            (z - th + pa + 4) as i32,
        ),
        collision: Collision {
            player: !o.nocollide,
            weapon: !o.nocollide,
            interaction: !o.nocollide,
            tool: true,
        },
        color: t.color,
        owner_index: 1,
        material_intensity: 0,
        material_index: if o.glow {
            1
        } else {
            0
        },
    }
}

/// Whether a tile emits nothing: absorbed, transparent under culling, or,
/// in a grid of one layer, at elevation 0 under culling.
pub open spec fn skipped(t: TileView, o: GenOptions, layered: bool) -> bool {
    !is_live(t) || (o.cull && t.color[3] == 0) || (o.cull && !layered && t.height == 0)
}

/// The bricks of one tile.
pub open spec fn tile_bricks(t: TileView, o: GenOptions, offset: u32, layered: bool) -> Seq<Brick> {
    if skipped(t, o, layered) {
        seq![]
    } else {
        segments(desired_thickness(t, o, offset), top_z(t, o), o.stud).map_values(
            |s: (int, int)| brick_of(t, o, offset, s.0, s.1),
        )
    }
}

/// The bricks of a layer, tile by tile.
pub open spec fn layer_bricks(ts: Seq<TileView>, o: GenOptions, offset: u32, layered: bool) -> Seq<
    Brick,
>
    decreases ts.len(),
{
    if ts.len() == 0 {
        seq![]
    } else {
        layer_bricks(ts.drop_last(), o, offset, layered) + tile_bricks(ts.last(), o, offset, layered)
    }
}

/// Elevation offset of layer `k`: 0 for the base layer; for a feature layer,
/// the elevation of the level below it, or, when that level is a basin, of
/// the one below that (0 if none).
pub open spec fn layer_offset(levels: Seq<Level>, k: int) -> u32 {
    if k == 0 || k - 1 >= levels.len() {
        0
    } else {
        let i = k - 1;
        if levels[i].basin {
            if i > 0 {
                levels[i - 1].height
            } else {
                0
            }
        } else {
            levels[i].height
        }
    }
}

/// The bricks of layers `k` and after.
pub open spec fn tree_bricks_from(ls: Seq<Seq<TileView>>, levels: Seq<Level>, o: GenOptions, k: int) -> Seq<
    Brick,
>
    decreases ls.len() - k,
{
    if k < 0 || k >= ls.len() {
        seq![]
    } else {
        layer_bricks(ls[k], o, layer_offset(levels, k), levels.len() > 0) + tree_bricks_from(
            ls,
            levels,
            o,
            k + 1,
        )
    }
}

/// Every brick of the grid, layer by layer.
pub open spec fn tree_bricks(ls: Seq<Seq<TileView>>, levels: Seq<Level>, o: GenOptions) -> Seq<Brick> {
    tree_bricks_from(ls, levels, o, 0)
}

proof fn lemma_mul_bound(a: int, b: int, ma: int, mb: int)
    requires
        0 <= a <= ma,
        0 <= b <= mb,
    ensures
        0 <= a * b <= ma * mb,
{
    assert(0 <= a * b <= ma * mb) by (nonlinear_arith)
        requires
            0 <= a <= ma,
            0 <= b <= mb,
    ;
}

pub proof fn lemma_segment_thickness(desired: int, stud: bool)
    ensures
        min_unit(stud) <= segment_thickness(desired, stud) <= 250,
{
}

/// The brick of thickness `th` at stack cursor `z`.
fn make_brick(t: &Tile, o: &GenOptions, offset: u32, th: i128, z: i128) -> (b: Brick)
    requires
        2 <= th <= 250,
        -0x1_0000_0000_0000_0000_0000 < z < 0x1_0000_0000_0000_0000_0000,
    ensures
        b == brick_of(t@, *o, offset, th as int, z as int),
{
    let pa: i128 = if offset != 0 {
        4
    } else {
        0
    };
    let thickness: u32 = if o.img && o.micro {
        o.size
    } else if th >= pa {
        (th - pa) as u32
    } else {
        0
    };
    proof {
        let m = u32::MAX as int;
        lemma_mul_bound(t.size.0 as int, o.size as int, m, m);
        lemma_mul_bound(t.size.1 as int, o.size as int, m, m);
        lemma_mul_bound(t.center.0 * 2 + t.size.0, o.size as int, 3 * m, m);
        lemma_mul_bound(t.center.1 * 2 + t.size.1, o.size as int, 3 * m, m);
    }
    let w = t.size.0 as i128 * o.size as i128;
    let d = t.size.1 as i128 * o.size as i128;
    let px = (t.center.0 as i128 * 2 + t.size.0 as i128) * o.size as i128;
    let py = (t.center.1 as i128 * 2 + t.size.1 as i128) * o.size as i128;
    let pz = z - th + pa + 4;
    Brick {
        asset_name_index: o.asset,
        size: (#[verifier::truncate] (w as u32), #[verifier::truncate] (d as u32), thickness),
        position: (
            #[verifier::truncate] (px as i32),
            #[verifier::truncate] (py as i32),
            #[verifier::truncate] (pz as i32),
        ),
        collision: Collision {
            player: !o.nocollide,
            weapon: !o.nocollide,
            interaction: !o.nocollide,
            tool: true,
        },
        color: t.color,
        owner_index: 1,
        material_intensity: 0,
        material_index: if o.glow {
            1
        } else {
            0
        },
    }
}

/// Appends the bricks of one tile to `out`.
fn push_tile_bricks(t: &Tile, options: &GenOptions, height_adjustment: u32, layered: bool, out: &mut Vec<Brick>)
    ensures
        final(out)@ == old(out)@ + tile_bricks(t@, *options, height_adjustment, layered),
{
    let ghost tv = t@;
    let ghost o = *options;
    if t.parent.is_some() || (options.cull && t.color[3] == 0) || (options.cull && !layered && t.height == 0) {
        assert(out@ =~= old(out)@ + tile_bricks(tv, o, height_adjustment, layered));
        return;
    }
    let scale = options.scale as i128;
    proof {
        let m = u32::MAX as int;
        lemma_mul_bound(scale as int, t.height as int, m, m);
        lemma_mul_bound(t.height + 2, scale as int, m + 2, m);
    }
    let mut z: i128 = scale * t.height as i128;
    let raw0: i128 = t.height as i128 - height_adjustment as i128 + 1;
    let raw: i128 = if raw0 > 2 {
        raw0
    } else {
        2
    };
    proof {
        lemma_mul_bound(raw as int, scale as int, u32::MAX + 2, u32::MAX as int);
    }
    let d0: i128 = raw * scale / 2;
    let mut desired: i128 = if d0 > 2 {
        d0
    } else {
        2
    };
    if options.snap {
        z = z + 4 - z % 4;
        desired = desired + 4 - desired % 4;
    }
    proof {
        assert(z == top_z(tv, o));
        assert(desired == desired_thickness(tv, o, height_adjustment));
    }
    let ghost z0 = z;
    let ghost dd0 = desired;
    let ghost all = segments(dd0 as int, z0 as int, o.stud);
    let ghost f = |s: (int, int)| brick_of(tv, o, height_adjustment, s.0, s.1);
    let unit: i128 = if options.stud {
        5
    } else {
        2
    };
    while desired > 0
        invariant
            tv == t@,
            o == *options,
            f == (|s: (int, int)| brick_of(tv, o, height_adjustment, s.0, s.1)),
            unit == min_unit(o.stud),
            -250 < desired <= dd0,
            dd0 < 0x1_0000_0000_0000_0000,
            0 <= z0 <= 0x1_0000_0000_0000_0004,
            z == z0 - 2 * dd0 + 2 * desired,
            old(out)@ + all.map_values(f) == out@ + segments(desired as int, z as int, o.stud).map_values(f),
        decreases desired + 250,
    {
        let a: i128 = if desired < unit {
            unit
        } else if desired > 250 {
            250
        } else {
            desired
        };
        let th: i128 = a + (unit - a % unit) % unit;
        proof {
            assert(th == segment_thickness(desired as int, o.stud));
            lemma_segment_thickness(desired as int, o.stud);
            let rest = segments(desired - th, z - 2 * th, o.stud);
            assert(segments(desired as int, z as int, o.stud) == seq![(th as int, z as int)] + rest);
            assert((seq![(th as int, z as int)] + rest).map_values(f) =~= seq![f((th as int, z as int))] + rest.map_values(f));
            assert(out@.push(f((th as int, z as int))) + rest.map_values(f) =~= out@ + (seq![f((th as int, z as int))] + rest.map_values(f)));
        }
        let b = make_brick(t, options, height_adjustment, th, z);
        out.push(b);
        desired = desired - th;
        z = z - th * 2;
    }
    proof {
        let e: Seq<Brick> = segments(desired as int, z as int, o.stud).map_values(f);
        assert(e =~= Seq::<Brick>::empty());
        assert(out@ + e =~= out@);
    }
}

impl QuadTree {
    /// The bricks of one layer, tile by tile; `height_adjustment` is the
    /// layer's elevation offset.
    fn tiles_to_bricks(tiles: &Vec<Tile>, options: &GenOptions, height_adjustment: u32, layered: bool) -> (r: Vec<
        Brick,
    >)
        ensures
            r@ == layer_bricks(layer_view(tiles@), *options, height_adjustment, layered),
    {
        let mut out: Vec<Brick> = Vec::new();
        let mut i: usize = 0;
        while i < tiles.len()
            invariant
                i <= tiles@.len(),
                out@ == layer_bricks(layer_view(tiles@.subrange(0, i as int)), *options, height_adjustment, layered),
            decreases tiles.len() - i,
        {
            proof {
                let pre = layer_view(tiles@.subrange(0, i + 1));
                assert(pre.drop_last() =~= layer_view(tiles@.subrange(0, i as int)));
                assert(pre.last() == tiles@[i as int]@);
            }
            push_tile_bricks(&tiles[i], options, height_adjustment, layered, &mut out);
            i += 1;
        }
        proof {
            assert(tiles@.subrange(0, i as int) =~= tiles@);
        }
        out
    }

    /// Every brick of the grid: the base layer's, then each feature layer's
    /// with its elevation offset.
    pub fn into_bricks(&self, options: GenOptions) -> (r: Vec<Brick>)
        ensures
            r@ == tree_bricks(self.layer_views(), self.spec_levels(), options),
    {
        let layered = self.levels.len() > 0;
        let mut all: Vec<Brick> = Vec::new();
        let mut k: usize = 0;
        let ghost ls = self.layer_views();
        let ghost levels = self.spec_levels();
        proof {
            assert(all@ + tree_bricks_from(ls, levels, options, 0) =~= tree_bricks(ls, levels, options));
        }
        while k < self.layers.len()
            invariant
                k <= self.layers@.len(),
                ls == self.layer_views(),
                levels == self.spec_levels(),
                layered == (levels.len() > 0),
                all@ + tree_bricks_from(ls, levels, options, k as int) == tree_bricks(ls, levels, options),
            decreases self.layers.len() - k,
        {
            let offset: u32 = if k == 0 {
                0
            } else if k - 1 < self.levels.len() {
                let i = k - 1;
                if self.levels[i].basin {
                    if i > 0 {
                        self.levels[i - 1].height
                    } else {
                        0
                    }
                } else {
                    self.levels[i].height
                }
            } else {
                0
            };
            let mut bricks = Self::tiles_to_bricks(&self.layers[k], &options, offset, layered);
            proof {
                assert(ls[k as int] == layer_view(self.layers@[k as int]@));
                assert(all@ + bricks@ + tree_bricks_from(ls, levels, options, k + 1) =~= all@ + tree_bricks_from(ls, levels, options, k as int));
            }
            all.append(&mut bricks);
            k += 1;
        }
        all
    }
}

} // verus!
