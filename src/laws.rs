//! Properties that hold of every grid and every conversion.
use crate::emit::{
    brick_of, desired_thickness, layer_bricks, layer_offset, segments, tile_bricks, top_z,
    tree_bricks, tree_bricks_from, Brick,
};
use crate::grid::{built, layered, lemma_fresh_layer_ok, LayerKind};
use crate::map::{Colormap, Heightmap};
use crate::merge::{
    lemma_line_from, lemma_quad_from, line_layers, line_pass, quad_layers,
    quad_pass,
};
use crate::pipeline::{converted, line_iter, line_settled, produced, quad_escalate, quad_stage};
use crate::quad::{total_live, Level, QuadTree};
use crate::tile::{
    bounded, fits_limit, grid_ok, is_live, lemma_single_cells_uniform, live_count, parents_agree,
    uniform, TileView,
};
use crate::util::GenOptions;
use vstd::arithmetic::power2::pow2;
use vstd::prelude::*;

verus! {

/// Every layer of `ls` is laid out over the domain and partitioned by its live tiles.
pub open spec fn all_partitioned(ls: Seq<Seq<TileView>>, w: nat, h: nat) -> bool {
    forall|j: int| 0 <= j < ls.len() ==> grid_ok(#[trigger] ls[j], w, h)
}

/// A 2x2 merge pass keeps the live tiles a partition of the domain.
pub proof fn law_quad_pass_keeps_partition(ts: Seq<TileView>, w: nat, h: nat, s: nat)
    requires
        grid_ok(ts, w, h),
    ensures
        grid_ok(quad_pass(ts, w, h, s), w, h),
{
    lemma_quad_from(ts, ts, 0, w, h, s, 0, 0);
}

/// A run-merge pass keeps the live tiles a partition of the domain.
pub proof fn law_line_pass_keeps_partition(ts: Seq<TileView>, w: nat, h: nat, sc: nat)
    requires
        grid_ok(ts, w, h),
        w <= u32::MAX,
        h <= u32::MAX,
    ensures
        grid_ok(line_pass(ts, w, h, sc).0, w, h),
{
    lemma_line_from(ts, ts, w, h, sc, 0, 0);
}

/// After the 2x2 merges that the options ask for and any number of
/// run-merge passes, every layer is still partitioned by its live tiles.
pub proof fn law_partition_after_merges(ls: Seq<Seq<TileView>>, w: nat, h: nat, o: GenOptions, n: nat)
    requires
        all_partitioned(ls, w, h),
        w <= u32::MAX,
        h <= u32::MAX,
    ensures
        all_partitioned(line_iter(quad_stage(ls, w, h, o), w, h, o.size as nat, n), w, h),
    decreases n,
{
    if n == 0 {
        if o.quadtree {
            lemma_escalate_partitioned(ls, ls, w, h, o.size as nat, 0);
        }
    } else {
        law_partition_after_merges(ls, w, h, o, (n - 1) as nat);
        let prev = line_iter(quad_stage(ls, w, h, o), w, h, o.size as nat, (n - 1) as nat);
        assert forall|j: int| 0 <= j < prev.len() implies grid_ok(
            #[trigger] line_layers(prev, w, h, o.size as nat)[j],
            w,
            h,
        ) by {
            lemma_line_from(prev[j], prev[j], w, h, o.size as nat, 0, 0);
        }
    }
}

proof fn lemma_escalate_partitioned(
    ls: Seq<Seq<TileView>>,
    init: Seq<Seq<TileView>>,
    w: nat,
    h: nat,
    unit: nat,
    level: nat,
)
    requires
        all_partitioned(ls, w, h),
    ensures
        all_partitioned(quad_escalate(ls, w, h, unit, level), w, h),
        all_uniform(ls, init, h) ==> all_uniform(quad_escalate(ls, w, h, unit, level), init, h),
        all_bounded(ls, unit) ==> all_bounded(quad_escalate(ls, w, h, unit, level), unit),
    decreases 31 - level,
{
    if level < 31 && pow2(level + 1) * unit < 500 {
        let next = quad_layers(ls, w, h, pow2(level));
        assert(2 * pow2(level) * unit == pow2(level + 1) * unit) by {
            vstd::arithmetic::power2::lemma_pow2_unfold(level + 1);
        }
        assert forall|j: int| 0 <= j < next.len() implies grid_ok(#[trigger] next[j], w, h) && (
        all_uniform(ls, init, h) ==> uniform(next[j], init[j], h)) && (all_bounded(ls, unit)
            ==> bounded(next[j], unit)) by {
            lemma_quad_from(ls[j], init[j], unit, w, h, pow2(level), 0, 0);
        }
        if total_live(ls) != total_live(next) {
            lemma_escalate_partitioned(next, init, w, h, unit, level + 1);
        }
    }
}

/// Every live tile of every layer fits the size limit for `unit`.
pub open spec fn all_bounded(ls: Seq<Seq<TileView>>, unit: nat) -> bool {
    forall|j: int| 0 <= j < ls.len() ==> bounded(#[trigger] ls[j], unit)
}

/// Merging never makes a tile longer than 500 units along an axis, unless it
/// is a single cell there: after the 2x2 merges that the options ask for
/// and any number of run-merge passes, every live tile fits that limit.
pub proof fn law_tiles_within_limit(ls: Seq<Seq<TileView>>, w: nat, h: nat, o: GenOptions, n: nat)
    requires
        all_partitioned(ls, w, h),
        w <= u32::MAX,
        h <= u32::MAX,
        forall|j: int, i: int|
            0 <= j < ls.len() && 0 <= i < ls[j].len() ==> (#[trigger] ls[j][i]).size == (1nat, 1nat),
    ensures
        all_bounded(line_iter(quad_stage(ls, w, h, o), w, h, o.size as nat, n), o.size as nat),
    decreases n,
{
    if n == 0 {
        assert forall|j: int| 0 <= j < ls.len() implies bounded(#[trigger] ls[j], o.size as nat) by {
            assert forall|i: int| 0 <= i < ls[j].len() && is_live(#[trigger] ls[j][i]) implies fits_limit(
                ls[j][i].size.0,
                o.size as nat,
            ) && fits_limit(ls[j][i].size.1, o.size as nat) by {}
        }
        if o.quadtree {
            lemma_escalate_partitioned(ls, ls, w, h, o.size as nat, 0);
        }
    } else {
        law_tiles_within_limit(ls, w, h, o, (n - 1) as nat);
        law_partition_after_merges(ls, w, h, o, (n - 1) as nat);
        let prev = line_iter(quad_stage(ls, w, h, o), w, h, o.size as nat, (n - 1) as nat);
        assert forall|j: int| 0 <= j < prev.len() implies bounded(
            #[trigger] line_layers(prev, w, h, o.size as nat)[j],
            o.size as nat,
        ) by {
            lemma_line_from(prev[j], prev[j], w, h, o.size as nat, 0, 0);
        }
    }
}

/// A tile within the limit, with a unit size of at most 500, emits bricks
/// whose width and depth are at most 500 units.
pub proof fn law_brick_footprint(t: TileView, o: GenOptions, offset: u32, layered: bool, i: int)
    requires
        0 <= i < tile_bricks(t, o, offset, layered).len(),
        o.size <= 500,
        fits_limit(t.size.0, o.size as nat),
        fits_limit(t.size.1, o.size as nat),
    ensures
        tile_bricks(t, o, offset, layered)[i].size.0 <= 500,
        tile_bricks(t, o, offset, layered)[i].size.1 <= 500,
{
    let segs = segments(desired_thickness(t, o, offset), top_z(t, o), o.stud);
    let s = segs[i];
    assert(tile_bricks(t, o, offset, layered)[i] == brick_of(t, o, offset, s.0, s.1));
    if t.size.0 == 1 {
        assert(t.size.0 * o.size == o.size);
    }
    if t.size.1 == 1 {
        assert(t.size.1 * o.size == o.size);
    }
    assert(0 <= t.size.0 * o.size <= 500);
    assert(0 <= t.size.1 * o.size <= 500);
}

/// Each layer of `ls` is uniform with the matching unmerged layer of `init`.
pub open spec fn all_uniform(ls: Seq<Seq<TileView>>, init: Seq<Seq<TileView>>, h: nat) -> bool {
    ls.len() == init.len() && forall|j: int| 0 <= j < ls.len() ==> uniform(#[trigger] ls[j], init[j], h)
}

/// Merges only join tiles of equal color and elevation: after the 2x2
/// merges that the options ask for and any number of run-merge passes,
/// every live tile has the color and elevation of each cell it covers in
/// the unmerged grid, so its bricks stand for exactly those cells.
pub proof fn law_merge_soundness(ls: Seq<Seq<TileView>>, w: nat, h: nat, o: GenOptions, n: nat)
    requires
        all_partitioned(ls, w, h),
        w <= u32::MAX,
        h <= u32::MAX,
        forall|j: int, i: int|
            0 <= j < ls.len() && 0 <= i < ls[j].len() ==> (#[trigger] ls[j][i]).size == (1nat, 1nat),
    ensures
        all_uniform(line_iter(quad_stage(ls, w, h, o), w, h, o.size as nat, n), ls, h),
    decreases n,
{
    if n == 0 {
        assert forall|j: int| 0 <= j < ls.len() implies uniform(#[trigger] ls[j], ls[j], h) by {
            assert(grid_ok(ls[j], w, h));
            assert forall|i: int| 0 <= i < ls[j].len() implies (#[trigger] ls[j][i]).size == (1nat, 1nat) by {}
            lemma_single_cells_uniform(ls[j], w, h);
        }
        if o.quadtree {
            lemma_escalate_partitioned(ls, ls, w, h, o.size as nat, 0);
        }
    } else {
        law_merge_soundness(ls, w, h, o, (n - 1) as nat);
        law_partition_after_merges(ls, w, h, o, (n - 1) as nat);
        let prev = line_iter(quad_stage(ls, w, h, o), w, h, o.size as nat, (n - 1) as nat);
        assert forall|j: int| 0 <= j < prev.len() implies uniform(
            #[trigger] line_layers(prev, w, h, o.size as nat)[j],
            ls[j],
            h,
        ) by {
            lemma_line_from(prev[j], ls[j], w, h, o.size as nat, 0, 0);
        }
    }
}


/// Once a run-merge pass merges nothing, it leaves the layer as it is, and
/// running it again merges nothing either.
pub proof fn law_line_fixpoint(ts: Seq<TileView>, w: nat, h: nat, sc: nat)
    requires
        grid_ok(ts, w, h),
        w <= u32::MAX,
        h <= u32::MAX,
        line_pass(ts, w, h, sc).1 == 0,
    ensures
        line_pass(ts, w, h, sc).0 == ts,
        line_pass(line_pass(ts, w, h, sc).0, w, h, sc).1 == 0,
{
    lemma_line_from(ts, ts, w, h, sc, 0, 0);
}

/// A run-merge pass removes exactly the live tiles it reports, so the live
/// count never grows.
pub proof fn law_line_pass_reduces(ts: Seq<TileView>, w: nat, h: nat, sc: nat)
    requires
        grid_ok(ts, w, h),
        w <= u32::MAX,
        h <= u32::MAX,
    ensures
        live_count(line_pass(ts, w, h, sc).0) + line_pass(ts, w, h, sc).1 == live_count(ts),
        live_count(line_pass(ts, w, h, sc).0) <= live_count(ts),
{
    lemma_line_from(ts, ts, w, h, sc, 0, 0);
}

/// A 2x2 merge pass never adds live tiles, and removes them three at a time.
pub proof fn law_quad_pass_reduces(ts: Seq<TileView>, w: nat, h: nat, s: nat)
    requires
        grid_ok(ts, w, h),
    ensures
        live_count(quad_pass(ts, w, h, s)) <= live_count(ts),
        (live_count(ts) - live_count(quad_pass(ts, w, h, s))) % 3 == 0,
{
    lemma_quad_from(ts, ts, 0, w, h, s, 0, 0);
}

/// No brick is thicker than 250 units, unless micro image mode sets the
/// thickness to the unit size.
pub proof fn law_brick_thickness(t: TileView, o: GenOptions, offset: u32, layered: bool, i: int)
    requires
        0 <= i < tile_bricks(t, o, offset, layered).len(),
        !(o.img && o.micro),
    ensures
        tile_bricks(t, o, offset, layered)[i].size.2 <= 250,
{
    let segs = segments(desired_thickness(t, o, offset), top_z(t, o), o.stud);
    lemma_segments_thin(desired_thickness(t, o, offset), top_z(t, o), o.stud);
    let s = segs[i];
    assert(tile_bricks(t, o, offset, layered)[i] == brick_of(t, o, offset, s.0, s.1));
}

proof fn lemma_segments_thin(desired: int, z: int, stud: bool)
    ensures
        forall|i: int|
            0 <= i < segments(desired, z, stud).len() ==> 2 <= (#[trigger] segments(desired, z, stud)[i]).0
                <= 250,
    decreases desired + 250,
{
    if desired > 0 {
        let t = crate::emit::segment_thickness(desired, stud);
        crate::emit::lemma_segment_thickness(desired, stud);
        lemma_segments_thin(desired - t, z - 2 * t, stud);
        let rest = segments(desired - t, z - 2 * t, stud);
        assert forall|i: int| 0 <= i < segments(desired, z, stud).len() implies 2 <= (
        #[trigger] segments(desired, z, stud)[i]).0 <= 250 by {
            if i > 0 {
                assert(segments(desired, z, stud)[i] == rest[i - 1]);
            }
        }
    }
}

} // verus!

verus! {

/// Each brick of a layer is a brick of one of its tiles.
proof fn lemma_layer_brick_source(ts: Seq<TileView>, o: GenOptions, offset: u32, layered: bool, k: int)
    requires
        0 <= k < layer_bricks(ts, o, offset, layered).len(),
    ensures
        exists|i: int, m: int|
            0 <= i < ts.len() && 0 <= m < tile_bricks(ts[i], o, offset, layered).len()
                && layer_bricks(ts, o, offset, layered)[k] == #[trigger] tile_bricks(
                ts[i],
                o,
                offset,
                layered,
            )[m],
    decreases ts.len(),
{
    let init = ts.drop_last();
    let front = layer_bricks(init, o, offset, layered);
    if k < front.len() {
        lemma_layer_brick_source(init, o, offset, layered, k);
        let (i, m) = choose|i: int, m: int|
            0 <= i < init.len() && 0 <= m < tile_bricks(init[i], o, offset, layered).len()
                && front[k] == #[trigger] tile_bricks(init[i], o, offset, layered)[m];
        assert(init[i] == ts[i]);
        assert(layer_bricks(ts, o, offset, layered)[k] == tile_bricks(ts[i], o, offset, layered)[m]);
    } else {
        let m = k - front.len();
        assert(layer_bricks(ts, o, offset, layered)[k] == tile_bricks(ts.last(), o, offset, layered)[m]);
        assert(ts.last() == ts[ts.len() - 1]);
    }
}

/// Brick `m` of tile `i` of layer `j`.
spec fn brick_in(ls: Seq<Seq<TileView>>, levels: Seq<Level>, o: GenOptions, j: int, i: int, m: int) -> Brick {
    tile_bricks(ls[j][i], o, layer_offset(levels, j), levels.len() > 0)[m]
}

/// Each brick of the grid is a brick of one tile of one layer.
proof fn lemma_tree_brick_source(ls: Seq<Seq<TileView>>, levels: Seq<Level>, o: GenOptions, j0: int, k: int)
    requires
        0 <= j0,
        0 <= k < tree_bricks_from(ls, levels, o, j0).len(),
    ensures
        exists|j: int, i: int, m: int|
            j0 <= j < ls.len() && 0 <= i < ls[j].len() && 0 <= m < tile_bricks(
                ls[j][i],
                o,
                layer_offset(levels, j),
                levels.len() > 0,
            ).len() && tree_bricks_from(ls, levels, o, j0)[k] == #[trigger] brick_in(
                ls,
                levels,
                o,
                j,
                i,
                m,
            ),
    decreases ls.len() - j0,
{
    let off = layer_offset(levels, j0);
    let lay = levels.len() > 0;
    let here = layer_bricks(ls[j0], o, off, lay);
    if k < here.len() {
        lemma_layer_brick_source(ls[j0], o, off, lay, k);
        let (i, m) = choose|i: int, m: int|
            0 <= i < ls[j0].len() && 0 <= m < tile_bricks(ls[j0][i], o, off, lay).len() && here[k]
                == #[trigger] tile_bricks(ls[j0][i], o, off, lay)[m];
        assert(tree_bricks_from(ls, levels, o, j0)[k] == brick_in(ls, levels, o, j0, i, m));
    } else {
        lemma_tree_brick_source(ls, levels, o, j0 + 1, k - here.len());
    }
}

/// Every brick a conversion emits is at most 500 units wide and deep when
/// the unit size is at most 500, and at most 250 units thick unless micro
/// image mode sets the thickness to the unit size.
pub proof fn law_brick_size_bound<H: Heightmap + ?Sized, C: Colormap + ?Sized>(
    hm: &H,
    cm: &C,
    o: GenOptions,
    b: Seq<Brick>,
    k: int,
)
    requires
        produced(hm, cm, o, b),
        0 <= k < b.len(),
    ensures
        o.size <= 500 ==> b[k].size.0 <= 500 && b[k].size.1 <= 500,
        !(o.img && o.micro) ==> b[k].size.2 <= 250,
{
    let q = choose|q: QuadTree| built(q, hm, cm, o.gen_full_layers_above_height) && #[trigger] converted(q, o, b);
    let w = q.spec_width();
    let h = q.spec_height();
    let ls0 = q.layer_views();
    let ls1 = quad_stage(ls0, w, h, o);
    let n = choose|n: nat|
        line_settled(ls1, w, h, o.size as nat, n) && b == tree_bricks(
            #[trigger] line_iter(ls1, w, h, o.size as nat, n),
            q.spec_levels(),
            o,
        );
    let fin = line_iter(ls1, w, h, o.size as nat, n);
    let levels = q.spec_levels();
    // the built layers are single cells
    assert forall|j: int, i: int|
        0 <= j < ls0.len() && 0 <= i < ls0[j].len() implies (#[trigger] ls0[j][i]).size == (1nat, 1nat) by {
        let (sw, sh) = hm.spec_size();
        if layered(sw, sh, o.gen_full_layers_above_height) {
            if j == 0 {
                lemma_fresh_layer_ok(ls0[0], hm, cm, sw, sh, LayerKind::Base(levels[0]));
            } else {
                lemma_fresh_layer_ok(ls0[j], hm, cm, sw, sh, LayerKind::Feature(levels[j]));
            }
        } else {
            lemma_fresh_layer_ok(ls0[0], hm, cm, sw, sh, LayerKind::Plain);
        }
    }
    assert(all_partitioned(ls0, w, h));
    law_tiles_within_limit(ls0, w, h, o, n);
    lemma_tree_brick_source(fin, levels, o, 0, k);
    let (j, i, m) = choose|j: int, i: int, m: int|
        0 <= j < fin.len() && 0 <= i < fin[j].len() && 0 <= m < tile_bricks(
            fin[j][i],
            o,
            layer_offset(levels, j),
            levels.len() > 0,
        ).len() && tree_bricks_from(fin, levels, o, 0)[k] == #[trigger] brick_in(fin, levels, o, j, i, m);
    let t = fin[j][i];
    let off = layer_offset(levels, j);
    let lay = levels.len() > 0;
    assert(is_live(t));
    assert(bounded(fin[j], o.size as nat));
    if o.size <= 500 {
        law_brick_footprint(t, o, off, lay, m);
    }
    if !(o.img && o.micro) {
        law_brick_thickness(t, o, off, lay, m);
    }
}

} // verus!

verus! {

/// In a layer without a correction, every brick's thickness is a multiple
/// of the thickness step (5 for studded bricks, else 2), unless micro image
/// mode sets it to the unit size.
pub proof fn law_brick_thickness_step(t: TileView, o: GenOptions, layered: bool, i: int)
    requires
        0 <= i < tile_bricks(t, o, 0, layered).len(),
        !(o.img && o.micro),
    ensures
        tile_bricks(t, o, 0, layered)[i].size.2 % (if o.stud {
            5u32
        } else {
            2u32
        }) == 0,
{
    let segs = segments(desired_thickness(t, o, 0), top_z(t, o), o.stud);
    lemma_segments_step(desired_thickness(t, o, 0), top_z(t, o), o.stud);
    let s = segs[i];
    assert(tile_bricks(t, o, 0, layered)[i] == brick_of(t, o, 0, s.0, s.1));
}

proof fn lemma_segments_step(desired: int, z: int, stud: bool)
    ensures
        forall|i: int|
            0 <= i < segments(desired, z, stud).len() ==> (#[trigger] segments(desired, z, stud)[i]).0
                % crate::emit::min_unit(stud) == 0 && 2 <= segments(desired, z, stud)[i].0 <= 250,
    decreases desired + 250,
{
    if desired > 0 {
        let t = crate::emit::segment_thickness(desired, stud);
        crate::emit::lemma_segment_thickness(desired, stud);
        lemma_segments_step(desired - t, z - 2 * t, stud);
        let rest = segments(desired - t, z - 2 * t, stud);
        assert(t % crate::emit::min_unit(stud) == 0);
        assert forall|i: int| 0 <= i < segments(desired, z, stud).len() implies (
        #[trigger] segments(desired, z, stud)[i]).0 % crate::emit::min_unit(stud) == 0 && 2 <= segments(
            desired,
            z,
            stud,
        )[i].0 <= 250 by {
            if i > 0 {
                assert(segments(desired, z, stud)[i] == rest[i - 1]);
            }
        }
    }
}

/// A tile's stack depends on its elevation and color alone, not on its
/// extent: two live tiles of equal color and elevation emit as many bricks,
/// of the same thicknesses at the same heights, and each brick's footprint
/// is the tile's extent times the unit size.
pub proof fn law_bricks_depend_on_elevation(
    a: TileView,
    b: TileView,
    o: GenOptions,
    offset: u32,
    layered: bool,
    i: int,
)
    requires
        is_live(a),
        is_live(b),
        a.color == b.color,
        a.height == b.height,
        0 <= i < tile_bricks(a, o, offset, layered).len(),
    ensures
        tile_bricks(b, o, offset, layered).len() == tile_bricks(a, o, offset, layered).len(),
        tile_bricks(b, o, offset, layered)[i].size.2 == tile_bricks(a, o, offset, layered)[i].size.2,
        tile_bricks(b, o, offset, layered)[i].position.2 == tile_bricks(
            a,
            o,
            offset,
            layered,
        )[i].position.2,
        tile_bricks(a, o, offset, layered)[i].size.0 == (a.size.0 * o.size) as u32,
        tile_bricks(a, o, offset, layered)[i].size.1 == (a.size.1 * o.size) as u32,
{
    assert(desired_thickness(a, o, offset) == desired_thickness(b, o, offset));
    assert(top_z(a, o) == top_z(b, o));
    let segs = segments(desired_thickness(a, o, offset), top_z(a, o), o.stud);
    let s = segs[i];
    assert(tile_bricks(a, o, offset, layered)[i] == brick_of(a, o, offset, s.0, s.1));
    assert(tile_bricks(b, o, offset, layered)[i] == brick_of(b, o, offset, s.0, s.1));
}

} // verus!

verus! {

/// Every layer's absorbed tiles name parents of their own color and elevation.
pub open spec fn all_parents_agree(ls: Seq<Seq<TileView>>) -> bool {
    forall|j: int| 0 <= j < ls.len() ==> parents_agree(#[trigger] ls[j])
}

/// Merges only join tiles of equal color and elevation: each pass keeps
/// every absorbed tile's parent of the tile's own color and elevation.
pub proof fn law_passes_keep_parents(ts: Seq<TileView>, w: nat, h: nat, s: nat, sc: nat)
    requires
        grid_ok(ts, w, h),
        w <= u32::MAX,
        h <= u32::MAX,
        parents_agree(ts),
    ensures
        parents_agree(quad_pass(ts, w, h, s)),
        parents_agree(line_pass(ts, w, h, sc).0),
{
    lemma_quad_from(ts, ts, 0, w, h, s, 0, 0);
    lemma_line_from(ts, ts, w, h, sc, 0, 0);
}

/// After the 2x2 merges that the options ask for and any number of
/// run-merge passes, every absorbed tile's parent has its color and elevation.
pub proof fn law_parents_after_merges(ls: Seq<Seq<TileView>>, w: nat, h: nat, o: GenOptions, n: nat)
    requires
        all_partitioned(ls, w, h),
        all_parents_agree(ls),
        w <= u32::MAX,
        h <= u32::MAX,
    ensures
        all_parents_agree(line_iter(quad_stage(ls, w, h, o), w, h, o.size as nat, n)),
    decreases n,
{
    if n == 0 {
        if o.quadtree {
            lemma_escalate_parents(ls, w, h, o.size as nat, 0);
        }
    } else {
        law_parents_after_merges(ls, w, h, o, (n - 1) as nat);
        law_partition_after_merges(ls, w, h, o, (n - 1) as nat);
        let prev = line_iter(quad_stage(ls, w, h, o), w, h, o.size as nat, (n - 1) as nat);
        assert forall|j: int| 0 <= j < prev.len() implies parents_agree(
            #[trigger] line_layers(prev, w, h, o.size as nat)[j],
        ) by {
            lemma_line_from(prev[j], prev[j], w, h, o.size as nat, 0, 0);
        }
    }
}

proof fn lemma_escalate_parents(ls: Seq<Seq<TileView>>, w: nat, h: nat, unit: nat, level: nat)
    requires
        all_partitioned(ls, w, h),
        all_parents_agree(ls),
    ensures
        all_parents_agree(quad_escalate(ls, w, h, unit, level)),
    decreases 31 - level,
{
    if level < 31 && pow2(level + 1) * unit < 500 {
        let next = quad_layers(ls, w, h, pow2(level));
        lemma_escalate_partitioned(ls, ls, w, h, unit, level);
        assert forall|j: int| 0 <= j < next.len() implies grid_ok(#[trigger] next[j], w, h)
            && parents_agree(next[j]) by {
            lemma_quad_from(ls[j], ls[j], unit, w, h, pow2(level), 0, 0);
        }
        if total_live(ls) != total_live(next) {
            lemma_escalate_parents(next, w, h, unit, level + 1);
        }
    }
}

} // verus!
