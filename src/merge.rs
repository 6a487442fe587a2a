//! The two merge passes over one grid layer: 2x2 merges at a fixed scale, and
//! merges of horizontal or vertical runs.
use crate::quad::{saturate, total_live, QuadTree};
use crate::tile::{
    add_heights, cell_index, covers, grid_ok, is_live, layer_view, lemma_absorb_keeps_partition,
    layout_ok, lemma_anchor, lemma_cell_index_bound, lemma_live_count_bound, live_count, similar_line,
    similar_quad, Tile, TileView, uniform, lemma_absorb_keeps_uniform, value_set, bounded, fits_limit, parents_agree,
    lemma_absorb_keeps_parents,
};
use vstd::arithmetic::power2::pow2;
use vstd::prelude::*;

verus! {

/// The result of a 2x2 merge into `tl` of `tr`, `bl` and `br`.
pub open spec fn merge_quad_spec(ts: Seq<TileView>, tl: int, tr: int, bl: int, br: int) -> Seq<
    TileView,
> {
    let t = ts[tl];
    let p = Some(t.index);
    ts.update(
        tl,
        TileView {
            size: (t.size.0 * 2, t.size.1 * 2),
            neighbors: t.neighbors.union(ts[tr].neighbors).union(ts[bl].neighbors).union(
                ts[br].neighbors,
            ),
            ..t
        },
    ).update(tr, TileView { parent: p, ..ts[tr] }).update(bl, TileView { parent: p, ..ts[bl] }).update(
        br,
        TileView { parent: p, ..ts[br] },
    )
}

/// Whether the 2x2 block anchored at `(x, y)` with cells of extent `s` merges.
pub open spec fn quad_fits(ts: Seq<TileView>, h: nat, x: nat, y: nat, s: nat) -> bool {
    let tl = cell_index(x as int, y as int, h as int);
    let tr = cell_index((x + s) as int, y as int, h as int);
    let bl = cell_index(x as int, (y + s) as int, h as int);
    let br = cell_index((x + s) as int, (y + s) as int, h as int);
    &&& ts[tl].size == (s, s)
    &&& similar_quad(ts[tl], ts[tr])
    &&& similar_quad(ts[tl], ts[bl])
    &&& similar_quad(ts[tl], ts[br])
}

/// One 2x2 block: merged if it fits, else left as it is.
pub open spec fn quad_step(ts: Seq<TileView>, h: nat, x: nat, y: nat, s: nat) -> Seq<TileView> {
    if quad_fits(ts, h, x, y, s) {
        merge_quad_spec(
            ts,
            cell_index(x as int, y as int, h as int),
            cell_index((x + s) as int, y as int, h as int),
            cell_index(x as int, (y + s) as int, h as int),
            cell_index((x + s) as int, (y + s) as int, h as int),
        )
    } else {
        ts
    }
}

/// The blocks from `(x, y)` on, column by column, in steps of `2 * s`.
pub open spec fn quad_from(ts: Seq<TileView>, w: nat, h: nat, s: nat, x: nat, y: nat) -> Seq<
    TileView,
>
    decreases w + 2 * s - x, h + 2 * s - y,
{
    if s == 0 || x + s >= w {
        ts
    } else if y + s >= h {
        quad_from(ts, w, h, s, x + 2 * s, 0)
    } else {
        quad_from(quad_step(ts, h, x, y, s), w, h, s, x, y + 2 * s)
    }
}

/// The 2x2 merge pass at cell extent `s`.
pub open spec fn quad_pass(ts: Seq<TileView>, w: nat, h: nat, s: nat) -> Seq<TileView> {
    quad_from(ts, w, h, s, 0, 0)
}

proof fn lemma_quad_step(
    ts: Seq<TileView>,
    init: Seq<TileView>,
    unit: nat,
    w: nat,
    h: nat,
    x: nat,
    y: nat,
    s: nat,
)
    requires
        grid_ok(ts, w, h),
        s >= 1,
        x + s < w,
        y + s < h,
    ensures
        grid_ok(quad_step(ts, h, x, y, s), w, h),
        quad_fits(ts, h, x, y, s) ==> live_count(quad_step(ts, h, x, y, s)) + 3 == live_count(ts),
        !quad_fits(ts, h, x, y, s) ==> quad_step(ts, h, x, y, s) == ts,
        uniform(ts, init, h) ==> uniform(quad_step(ts, h, x, y, s), init, h),
        bounded(ts, unit) && 2 * s * unit <= 500 ==> bounded(quad_step(ts, h, x, y, s), unit),
        parents_agree(ts) ==> parents_agree(quad_step(ts, h, x, y, s)),
{
    if quad_fits(ts, h, x, y, s) {
        let tl = cell_index(x as int, y as int, h as int);
        let tr = cell_index((x + s) as int, y as int, h as int);
        let bl = cell_index(x as int, (y + s) as int, h as int);
        let br = cell_index((x + s) as int, (y + s) as int, h as int);
        lemma_anchor(ts, w, h, x as int, y as int);
        lemma_anchor(ts, w, h, (x + s) as int, y as int);
        lemma_anchor(ts, w, h, x as int, (y + s) as int);
        lemma_anchor(ts, w, h, (x + s) as int, (y + s) as int);
        let ts2 = merge_quad_spec(ts, tl, tr, bl, br);
        let gone = Set::empty().insert(tr).insert(bl).insert(br);
        assert(ts[br].center.0 + ts[br].size.0 <= w);
        assert(ts[br].center.1 + ts[br].size.1 <= h);
        assert forall|cx: int, cy: int|
            #[trigger] covers(ts2[tl], cx, cy) <==> (covers(ts[tl], cx, cy) || exists|b: int|
                gone.contains(b) && #[trigger] covers(ts[b], cx, cy)) by {
            if covers(ts2[tl], cx, cy) && !covers(ts[tl], cx, cy) {
                if cx >= x + s && cy < y + s {
                    assert(covers(ts[tr], cx, cy));
                } else if cx < x + s {
                    assert(covers(ts[bl], cx, cy));
                } else {
                    assert(covers(ts[br], cx, cy));
                }
            }
        }
        assert forall|j: int|
            0 <= j < ts.len() && j != tl && !gone.contains(j) implies #[trigger] ts2[j] == ts[j] by {}
        lemma_absorb_keeps_partition(ts, ts2, w, h, tl, gone);
        assert(gone.len() == 3);
        if uniform(ts, init, h) {
            lemma_absorb_keeps_uniform(ts, ts2, init, h, tl, gone);
        }
        if parents_agree(ts) {
            lemma_absorb_keeps_parents(ts, ts2, tl, gone);
        }
        if bounded(ts, unit) && 2 * s * unit <= 500 {
            assert forall|i: int| 0 <= i < ts2.len() && is_live(#[trigger] ts2[i]) implies fits_limit(
                ts2[i].size.0,
                unit,
            ) && fits_limit(ts2[i].size.1, unit) by {
                if i != tl {
                    assert(!gone.contains(i));
                    assert(ts2[i] == ts[i]);
                }
            }
        }
    }
}

/// The 2x2 blocks from `(x, y)` on keep the layer well formed and its
/// uniformity with `init`, remove live tiles three at a time, and keep
/// tiles within the limit for `unit` when `2 * s` cells fit it.
pub proof fn lemma_quad_from(
    ts: Seq<TileView>,
    init: Seq<TileView>,
    unit: nat,
    w: nat,
    h: nat,
    s: nat,
    x: nat,
    y: nat,
)
    requires
        grid_ok(ts, w, h),
    ensures
        grid_ok(quad_from(ts, w, h, s, x, y), w, h),
        live_count(quad_from(ts, w, h, s, x, y)) <= live_count(ts),
        (live_count(ts) - live_count(quad_from(ts, w, h, s, x, y))) % 3 == 0,
        uniform(ts, init, h) ==> uniform(quad_from(ts, w, h, s, x, y), init, h),
        bounded(ts, unit) && 2 * s * unit <= 500 ==> bounded(quad_from(ts, w, h, s, x, y), unit),
        parents_agree(ts) ==> parents_agree(quad_from(ts, w, h, s, x, y)),
    decreases w + 2 * s - x, h + 2 * s - y,
{
    if s == 0 || x + s >= w {
    } else if y + s >= h {
        lemma_quad_from(ts, init, unit, w, h, s, x + 2 * s, 0);
    } else {
        lemma_quad_step(ts, init, unit, w, h, x, y, s);
        lemma_quad_from(quad_step(ts, h, x, y, s), init, unit, w, h, s, x, y + 2 * s);
    }
}

impl Tile {
    /// Merges the 2x2 block `tl`, `tr`, `bl`, `br` into `tl`: its extent
    /// doubles, it takes in the others' neighbor elevations, and the others
    /// record `tl` as their parent.
    pub fn merge_quad(tiles: &mut Vec<Tile>, tl: usize, tr: usize, bl: usize, br: usize)
        requires
            tl < old(tiles).len(),
            tr < old(tiles).len(),
            bl < old(tiles).len(),
            br < old(tiles).len(),
            tl != tr,
            tl != bl,
            tl != br,
            tr != bl,
            tr != br,
            bl != br,
            old(tiles)@[tl as int].size.0 * 2 <= u32::MAX,
            old(tiles)@[tl as int].size.1 * 2 <= u32::MAX,
        ensures
            layer_view(final(tiles)@) == merge_quad_spec(
                layer_view(old(tiles)@),
                tl as int,
                tr as int,
                bl as int,
                br as int,
            ),
    {
        let ghost old_view = layer_view(tiles@);
        let mut merged: Vec<u32> = Vec::new();
        add_heights(&mut merged, &tiles[tl].neighbors);
        add_heights(&mut merged, &tiles[tr].neighbors);
        add_heights(&mut merged, &tiles[bl].neighbors);
        add_heights(&mut merged, &tiles[br].neighbors);
        proof {
            let a = old_view[tl as int].neighbors;
            assert(Set::<u32>::empty().union(a) =~= a);
        }
        let ghost merged_set = value_set(merged@);
        let p = tiles[tl].index;
        let size = tiles[tl].size;
        tiles[tl].size = (size.0 * 2, size.1 * 2);
        tiles[tl].neighbors = merged;
        tiles[tr].parent = Some(p);
        tiles[bl].parent = Some(p);
        tiles[br].parent = Some(p);
        proof {
            let empty: Seq<u32> = Seq::empty();
            assert(value_set(empty) =~= Set::empty());
            assert(tiles@[tl as int]@.neighbors == merged_set);
            assert(layer_view(tiles@) =~= merge_quad_spec(
                old_view,
                tl as int,
                tr as int,
                bl as int,
                br as int,
            ));
        }
    }
}

impl QuadTree {

/// The 2x2 merge pass at cell extent `space` over one layer; returns the
/// number of tiles it absorbed.
fn quad_optimize_tiles(tiles: &mut Vec<Tile>, width: u32, height: u32, space: u32) -> (count:
    usize)
    requires
        grid_ok(layer_view(old(tiles)@), width as nat, height as nat),
        space >= 1,
    ensures
        layer_view(final(tiles)@) == quad_pass(
            layer_view(old(tiles)@),
            width as nat,
            height as nat,
            space as nat,
        ),
        grid_ok(layer_view(final(tiles)@), width as nat, height as nat),
        count + live_count(layer_view(final(tiles)@)) == live_count(layer_view(old(tiles)@)),
        count % 3 == 0,
{
    let ghost w = width as nat;
    let ghost h = height as nat;
    let ghost s = space as nat;
    let ghost start = layer_view(tiles@);
    let mut count: usize = 0;
    let sp = space as u64;
    let mut x: u64 = 0;
    proof {
        lemma_live_count_bound(start);
    }
    while x + sp < width as u64
        invariant
            w == width,
            h == height,
            s == space,
            sp == space,
            s >= 1,
            grid_ok(layer_view(tiles@), w, h),
            quad_from(layer_view(tiles@), w, h, s, x as nat, 0) == quad_pass(start, w, h, s),
            count + live_count(layer_view(tiles@)) == live_count(start),
            count % 3 == 0,
            live_count(start) <= tiles@.len(),
            x <= 2 * (u32::MAX as u64),
        decreases w + 2 * s - x,
    {
        let mut y: u64 = 0;
        while y + sp < height as u64
            invariant
                w == width,
                h == height,
                s == space,
                sp == space,
                s >= 1,
                x + s < w,
                grid_ok(layer_view(tiles@), w, h),
                quad_from(layer_view(tiles@), w, h, s, x as nat, y as nat) == quad_pass(
                    start,
                    w,
                    h,
                    s,
                ),
                count + live_count(layer_view(tiles@)) == live_count(start),
                count % 3 == 0,
                live_count(start) <= tiles@.len(),
                x <= 2 * (u32::MAX as u64),
                y <= 2 * (u32::MAX as u64),
            decreases h + 2 * s - y,
        {
            let ghost cur = layer_view(tiles@);
            proof {
                lemma_cell_index_bound(x as int, y as int, w as int, h as int);
                lemma_cell_index_bound((x + s) as int, y as int, w as int, h as int);
                lemma_cell_index_bound(x as int, (y + s) as int, w as int, h as int);
                lemma_cell_index_bound((x + s) as int, (y + s) as int, w as int, h as int);
                lemma_anchor(cur, w, h, x as int, y as int);
                lemma_anchor(cur, w, h, (x + s) as int, y as int);
                lemma_anchor(cur, w, h, x as int, (y + s) as int);
                lemma_anchor(cur, w, h, (x + s) as int, (y + s) as int);
                lemma_quad_step(cur, cur, 0, w, h, x as nat, y as nat, s);
            }
            let hh = height as u64;
            let tl = (x * hh + y) as usize;
            let tr = ((x + sp) * hh + y) as usize;
            let bl = (x * hh + y + sp) as usize;
            let br = ((x + sp) * hh + y + sp) as usize;
            if tiles[tl].size.0 == space && tiles[tl].size.1 == space && tiles[tl].similar_quad(
                &tiles[tr],
            ) && tiles[tl].similar_quad(&tiles[bl]) && tiles[tl].similar_quad(&tiles[br]) {
                proof {
                    assert(quad_fits(cur, h, x as nat, y as nat, s));
                    let t = cur[br as int];
                    assert(is_live(t));
                    assert(t.center.0 + t.size.0 <= w);
                }
                Tile::merge_quad(tiles, tl, tr, bl, br);
                count = count + 3;
            } else {
                proof {
                    assert(!quad_fits(cur, h, x as nat, y as nat, s));
                }
            }
            y = y + 2 * sp;
        }
        x = x + 2 * sp;
    }
    count
}

}

} // verus!

verus! {

/// Extent of a tile along the run axis (`vert`: downward, else rightward).
pub open spec fn extent(t: TileView, vert: bool) -> nat {
    if vert {
        t.size.1
    } else {
        t.size.0
    }
}

/// Position of the cell `k` cells from `(x, y)` along the run axis.
pub open spec fn run_cell(x: nat, y: nat, k: nat, vert: bool, h: nat) -> int {
    if vert {
        cell_index(x as int, (y + k) as int, h as int)
    } else {
        cell_index((x + k) as int, y as int, h as int)
    }
}

/// Cells from `(x, y)` to the edge of the domain along the run axis.
pub open spec fn run_room(x: nat, y: nat, w: nat, h: nat, vert: bool) -> int {
    if vert {
        h - y
    } else {
        w - x
    }
}

/// The greedy run from the tile at `(x, y)`, whose extent along the axis is
/// `k` so far: the tiles that follow it while they are line-similar to it and
/// the run's length times `scale` stays within 500.
pub open spec fn run(
    ts: Seq<TileView>,
    w: nat,
    h: nat,
    scale: nat,
    x: nat,
    y: nat,
    vert: bool,
    k: nat,
) -> Seq<int>
    decreases run_room(x, y, w, h, vert) - k,
{
    if k < run_room(x, y, w, h, vert) {
        let i = run_cell(x, y, k, vert, h);
        let t = ts[i];
        if extent(t, vert) > 0 && k + extent(t, vert) <= run_room(x, y, w, h, vert) && (k + extent(
            t,
            vert,
        )) * scale <= 500 && similar_line(
            ts[cell_index(x as int, y as int, h as int)],
            t,
        ) {
            seq![i] + run(ts, w, h, scale, x, y, vert, k + extent(t, vert))
        } else {
            seq![]
        }
    } else {
        seq![]
    }
}

/// Tile `s` takes in tile `c` along the run axis.
pub open spec fn absorb(ts: Seq<TileView>, s: int, c: int, vert: bool) -> Seq<TileView> {
    let t = ts[s];
    let u = ts[c];
    ts.update(c, TileView { parent: Some(s as nat), ..u }).update(
        s,
        TileView {
            size: if vert {
                (t.size.0, t.size.1 + u.size.1)
            } else {
                (t.size.0 + u.size.0, t.size.1)
            },
            neighbors: t.neighbors.union(u.neighbors),
            ..t
        },
    )
}

/// Tile `s` takes in the tiles `cs`, in order.
pub open spec fn absorb_all(ts: Seq<TileView>, s: int, cs: Seq<int>, vert: bool) -> Seq<TileView>
    decreases cs.len(),
{
    if cs.len() == 0 {
        ts
    } else {
        absorb_all(absorb(ts, s, cs[0], vert), s, cs.drop_first(), vert)
    }
}

/// Each step of `absorb_all` stays in range and its extent fits in `u32`.
pub open spec fn steps_ok(ts: Seq<TileView>, s: int, cs: Seq<int>, vert: bool) -> bool
    decreases cs.len(),
{
    &&& 0 <= s < ts.len()
    &&& cs.len() > 0 ==> {
        let c = cs[0];
        &&& 0 <= c < ts.len()
        &&& c != s
        &&& extent(ts[s], vert) + extent(ts[c], vert) <= u32::MAX
        &&& steps_ok(absorb(ts, s, c, vert), s, cs.drop_first(), vert)
    }
}

/// A run merge: the axis is vertical when the first child shares the start's column.
pub open spec fn merge_line_spec(ts: Seq<TileView>, s: int, cs: Seq<int>) -> Seq<TileView> {
    if cs.len() == 0 {
        ts
    } else {
        absorb_all(ts, s, cs, ts[cs[0]].center.0 == ts[s].center.0)
    }
}

/// The run merge from the tile at `(x, y)`, and how many tiles it absorbs:
/// the longer of the two runs, the vertical one on a tie.
pub open spec fn line_at(ts: Seq<TileView>, w: nat, h: nat, scale: nat, x: nat, y: nat) -> (
    Seq<TileView>,
    nat,
) {
    let s = cell_index(x as int, y as int, h as int);
    if !is_live(ts[s]) {
        (ts, 0)
    } else {
        let hr = run(ts, w, h, scale, x, y, false, ts[s].size.0);
        let vr = run(ts, w, h, scale, x, y, true, ts[s].size.1);
        let cs = if hr.len() > vr.len() {
            hr
        } else {
            vr
        };
        (merge_line_spec(ts, s, cs), cs.len())
    }
}

/// Run merges from every start at or after `(x, y)`, column by column.
pub open spec fn line_from(ts: Seq<TileView>, w: nat, h: nat, scale: nat, x: nat, y: nat) -> (
    Seq<TileView>,
    nat,
)
    decreases w - x, h - y,
{
    if x >= w {
        (ts, 0)
    } else if y >= h {
        line_from(ts, w, h, scale, x + 1, 0)
    } else {
        let (ts2, c) = line_at(ts, w, h, scale, x, y);
        let (ts3, c2) = line_from(ts2, w, h, scale, x, y + 1);
        (ts3, c + c2)
    }
}

/// One run-merge pass, and how many tiles it absorbed.
pub open spec fn line_pass(ts: Seq<TileView>, w: nat, h: nat, scale: nat) -> (Seq<TileView>, nat) {
    line_from(ts, w, h, scale, 0, 0)
}

proof fn lemma_run_cell(ts: Seq<TileView>, w: nat, h: nat, x: nat, y: nat, vert: bool, k: nat)
    requires
        layout_ok(ts, w, h),
        x < w,
        y < h,
        k < run_room(x, y, w, h, vert),
    ensures
        0 <= run_cell(x, y, k, vert, h) < ts.len(),
        ts[run_cell(x, y, k, vert, h)].center == (if vert {
            (x, y + k)
        } else {
            (x + k, y)
        }),
{
    if vert {
        lemma_anchor(ts, w, h, x as int, (y + k) as int);
    } else {
        lemma_anchor(ts, w, h, (x + k) as int, y as int);
    }
}

proof fn lemma_run_frame(
    ts: Seq<TileView>,
    ts1: Seq<TileView>,
    w: nat,
    h: nat,
    scale: nat,
    x: nat,
    y: nat,
    vert: bool,
    k: nat,
)
    requires
        layout_ok(ts, w, h),
        ts1.len() == ts.len(),
        x < w,
        y < h,
        k >= 1,
        ({
            let s = cell_index(x as int, y as int, h as int);
            &&& ts[s].center == (x, y)
            &&& ts1[s].center == ts[s].center
            &&& ts1[s].color == ts[s].color
            &&& ts1[s].height == ts[s].height
            &&& ts1[s].parent == ts[s].parent
            &&& extent(ts1[s], !vert) == extent(ts[s], !vert)
        }),
        forall|k2: nat|
            k <= k2 < run_room(x, y, w, h, vert) ==> ts1[#[trigger] run_cell(x, y, k2, vert, h)]
                == ts[run_cell(x, y, k2, vert, h)],
    ensures
        run(ts1, w, h, scale, x, y, vert, k) == run(ts, w, h, scale, x, y, vert, k),
    decreases run_room(x, y, w, h, vert) - k,
{
    if k < run_room(x, y, w, h, vert) {
        lemma_run_cell(ts, w, h, x, y, vert, k);
        let i = run_cell(x, y, k, vert, h);
        assert(ts1[i] == ts[i]);
        let e = extent(ts[i], vert);
        if e > 0 && k + e <= run_room(x, y, w, h, vert) {
            lemma_run_frame(ts, ts1, w, h, scale, x, y, vert, k + e);
        }
    }
}

/// A run found from a live start can be absorbed: the layer stays well formed
/// and loses one live tile per child.
proof fn lemma_run_absorb(
    ts: Seq<TileView>, init: Seq<TileView>,
    w: nat,
    h: nat,
    scale: nat,
    x: nat,
    y: nat,
    vert: bool,
    k: nat,
)
    requires
        grid_ok(ts, w, h),
        w <= u32::MAX,
        h <= u32::MAX,
        x < w,
        y < h,
        is_live(ts[cell_index(x as int, y as int, h as int)]),
        extent(ts[cell_index(x as int, y as int, h as int)], vert) == k,
    ensures
        ({
            let s = cell_index(x as int, y as int, h as int);
            let cs = run(ts, w, h, scale, x, y, vert, k);
            &&& steps_ok(ts, s, cs, vert)
            &&& grid_ok(absorb_all(ts, s, cs, vert), w, h)
            &&& live_count(absorb_all(ts, s, cs, vert)) + cs.len() == live_count(ts)
            &&& cs.len() > 0 ==> (ts[cs[0]].center.0 == ts[s].center.0) == vert
            &&& uniform(ts, init, h) ==> uniform(absorb_all(ts, s, cs, vert), init, h)
            &&& bounded(ts, scale) ==> bounded(absorb_all(ts, s, cs, vert), scale)
            &&& parents_agree(ts) ==> parents_agree(absorb_all(ts, s, cs, vert))
        }),
    decreases run_room(x, y, w, h, vert) - k,
{
    let s = cell_index(x as int, y as int, h as int);
    let cs = run(ts, w, h, scale, x, y, vert, k);
    lemma_anchor(ts, w, h, x as int, y as int);
    if k < run_room(x, y, w, h, vert) && cs.len() > 0 {
        lemma_run_cell(ts, w, h, x, y, vert, k);
        let c = run_cell(x, y, k, vert, h);
        let t = ts[c];
        let e = extent(t, vert);
        assert(cs[0] == c);
        assert(c != s);
        let ts1 = absorb(ts, s, c, vert);
        let gone = Set::empty().insert(c);
        assert forall|cx: int, cy: int|
            #[trigger] covers(ts1[s], cx, cy) <==> (covers(ts[s], cx, cy) || exists|b: int|
                gone.contains(b) && #[trigger] covers(ts[b], cx, cy)) by {
            if covers(ts[c], cx, cy) {
                assert(gone.contains(c));
            }
        }
        assert forall|j: int|
            0 <= j < ts.len() && j != s && !gone.contains(j) implies #[trigger] ts1[j] == ts[j] by {}
        lemma_absorb_keeps_partition(ts, ts1, w, h, s, gone);
        assert(gone.len() == 1);
        if uniform(ts, init, h) {
            lemma_absorb_keeps_uniform(ts, ts1, init, h, s, gone);
        }
        if parents_agree(ts) {
            lemma_absorb_keeps_parents(ts, ts1, s, gone);
        }
        if bounded(ts, scale) {
            assert forall|i: int| 0 <= i < ts1.len() && is_live(#[trigger] ts1[i]) implies fits_limit(
                ts1[i].size.0,
                scale,
            ) && fits_limit(ts1[i].size.1, scale) by {
                if i != s {
                    assert(!gone.contains(i));
                    assert(ts1[i] == ts[i]);
                }
            }
        }
        let rest = run(ts, w, h, scale, x, y, vert, k + e);
        assert(cs.drop_first() =~= rest);
        assert forall|k2: nat|
            k + e <= k2 < run_room(x, y, w, h, vert) implies ts1[#[trigger] run_cell(
                x,
                y,
                k2,
                vert,
                h,
            )] == ts[run_cell(x, y, k2, vert, h)] by {
            lemma_run_cell(ts, w, h, x, y, vert, k2);
        }
        lemma_run_frame(ts, ts1, w, h, scale, x, y, vert, k + e);
        lemma_run_absorb(ts1, init, w, h, scale, x, y, vert, k + e);
    }
}

} // verus!

verus! {

/// The run merge from `(x, y)` keeps the layer well formed, its uniformity
/// with `init` and its tiles within the limit, and removes exactly the
/// tiles it reports.
pub proof fn lemma_line_at(
    ts: Seq<TileView>,
    init: Seq<TileView>,
    w: nat,
    h: nat,
    scale: nat,
    x: nat,
    y: nat,
)
    requires
        grid_ok(ts, w, h),
        w <= u32::MAX,
        h <= u32::MAX,
        x < w,
        y < h,
    ensures
        grid_ok(line_at(ts, w, h, scale, x, y).0, w, h),
        live_count(line_at(ts, w, h, scale, x, y).0) + line_at(ts, w, h, scale, x, y).1
            == live_count(ts),
        line_at(ts, w, h, scale, x, y).1 == 0 ==> line_at(ts, w, h, scale, x, y).0 == ts,
        uniform(ts, init, h) ==> uniform(line_at(ts, w, h, scale, x, y).0, init, h),
        bounded(ts, scale) ==> bounded(line_at(ts, w, h, scale, x, y).0, scale),
        parents_agree(ts) ==> parents_agree(line_at(ts, w, h, scale, x, y).0),
{
    let s = cell_index(x as int, y as int, h as int);
    lemma_anchor(ts, w, h, x as int, y as int);
    if is_live(ts[s]) {
        lemma_run_absorb(ts, init, w, h, scale, x, y, false, ts[s].size.0);
        lemma_run_absorb(ts, init, w, h, scale, x, y, true, ts[s].size.1);
    }
}

/// Run merges from `(x, y)` on keep what `lemma_line_at` keeps; when they
/// report nothing, the layer is unchanged.
pub proof fn lemma_line_from(
    ts: Seq<TileView>,
    init: Seq<TileView>,
    w: nat,
    h: nat,
    scale: nat,
    x: nat,
    y: nat,
)
    requires
        grid_ok(ts, w, h),
        w <= u32::MAX,
        h <= u32::MAX,
    ensures
        grid_ok(line_from(ts, w, h, scale, x, y).0, w, h),
        live_count(line_from(ts, w, h, scale, x, y).0) + line_from(ts, w, h, scale, x, y).1
            == live_count(ts),
        line_from(ts, w, h, scale, x, y).1 == 0 ==> line_from(ts, w, h, scale, x, y).0 == ts,
        uniform(ts, init, h) ==> uniform(line_from(ts, w, h, scale, x, y).0, init, h),
        bounded(ts, scale) ==> bounded(line_from(ts, w, h, scale, x, y).0, scale),
        parents_agree(ts) ==> parents_agree(line_from(ts, w, h, scale, x, y).0),
    decreases w - x, h - y,
{
    if x >= w {
    } else if y >= h {
        lemma_line_from(ts, init, w, h, scale, x + 1, 0);
    } else {
        lemma_line_at(ts, init, w, h, scale, x, y);
        lemma_line_from(line_at(ts, w, h, scale, x, y).0, init, w, h, scale, x, y + 1);
    }
}

/// Tile `s` takes in tile `c` along the run axis.
fn absorb_tile(tiles: &mut Vec<Tile>, s: usize, c: usize, vert: bool)
    requires
        s < old(tiles).len(),
        c < old(tiles).len(),
        s != c,
        extent(old(tiles)@[s as int]@, vert) + extent(old(tiles)@[c as int]@, vert) <= u32::MAX,
    ensures
        final(tiles)@.len() == old(tiles)@.len(),
        layer_view(final(tiles)@) == absorb(layer_view(old(tiles)@), s as int, c as int, vert),
{
    let ghost old_view = layer_view(tiles@);
    let mut merged: Vec<u32> = Vec::new();
    add_heights(&mut merged, &tiles[s].neighbors);
    add_heights(&mut merged, &tiles[c].neighbors);
    proof {
        let a = old_view[s as int].neighbors;
        assert(Set::<u32>::empty().union(a) =~= a);
        let empty: Seq<u32> = Seq::empty();
        assert(value_set(empty) =~= Set::empty());
    }
    let ghost merged_set = value_set(merged@);
    let grown = tiles[c].size;
    tiles[c].parent = Some(s);
    let size = tiles[s].size;
    if vert {
        tiles[s].size = (size.0, size.1 + grown.1);
    } else {
        tiles[s].size = (size.0 + grown.0, size.1);
    }
    tiles[s].neighbors = merged;
    proof {
        assert(tiles@[s as int]@.neighbors == merged_set);
        assert(layer_view(tiles@) =~= absorb(old_view, s as int, c as int, vert));
    }
}

pub open spec fn int_indices(v: Seq<usize>) -> Seq<int> {
    v.map_values(|i: usize| i as int)
}

impl QuadTree {
    /// Merges the run `children` into `start_i`: each child records `start_i`
    /// as its parent, and the start grows by the children's extents along the
    /// run's axis and takes in their neighbor elevations.
    fn merge_line(tiles: &mut Vec<Tile>, start_i: usize, children: Vec<usize>)
        requires
            start_i < old(tiles).len(),
            children.len() > 0 ==> steps_ok(
                layer_view(old(tiles)@),
                start_i as int,
                int_indices(children@),
                old(tiles)@[children@[0] as int].center.0 == old(tiles)@[start_i as int].center.0,
            ),
        ensures
            layer_view(final(tiles)@) == merge_line_spec(
                layer_view(old(tiles)@),
                start_i as int,
                int_indices(children@),
            ),
    {
        if children.len() == 0 {
            return;
        }
        let ghost cs = int_indices(children@);
        let ghost s = start_i as int;
        let ghost orig = layer_view(tiles@);
        let is_vertical = tiles[children[0]].center.0 == tiles[start_i].center.0;
        let mut j: usize = 0;
        proof {
            assert(cs.skip(0) =~= cs);
        }
        while j < children.len()
            invariant
                j <= children.len(),
                cs == int_indices(children@),
                s == start_i,
                tiles@.len() == orig.len(),
                absorb_all(layer_view(tiles@), s, cs.skip(j as int), is_vertical) == absorb_all(
                    orig,
                    s,
                    cs,
                    is_vertical,
                ),
                steps_ok(layer_view(tiles@), s, cs.skip(j as int), is_vertical),
            decreases children.len() - j,
        {
            let ghost cur = layer_view(tiles@);
            let c = children[j];
            proof {
                assert(cs.skip(j as int)[0] == c);
                assert(cs.skip(j as int).drop_first() =~= cs.skip(j + 1));
            }
            absorb_tile(tiles, start_i, c, is_vertical);
            j += 1;
        }
        proof {
            assert(cs.skip(j as int).len() == 0);
            assert(cs.skip(0) =~= cs);
        }
    }

    /// The run from the live tile at `(x, y)` along one axis: the positions
    /// of the tiles it would absorb, in order.
    fn scan_run(tiles: &Vec<Tile>, width: u32, height: u32, tile_scale: u32, x: u32, y: u32, vert: bool) -> (r:
        Vec<usize>)
        requires
            grid_ok(layer_view(tiles@), width as nat, height as nat),
            x < width,
            y < height,
            is_live(layer_view(tiles@)[cell_index(x as int, y as int, height as int)]),
        ensures
            int_indices(r@) == run(
                layer_view(tiles@),
                width as nat,
                height as nat,
                tile_scale as nat,
                x as nat,
                y as nat,
                vert,
                extent(layer_view(tiles@)[cell_index(x as int, y as int, height as int)], vert),
            ),
    {
        let ghost ts = layer_view(tiles@);
        let ghost w = width as nat;
        let ghost h = height as nat;
        proof {
            lemma_anchor(ts, w, h, x as int, y as int);
            lemma_cell_index_bound(x as int, y as int, w as int, h as int);
        }
        let hh = height as u64;
        let s = (x as u64 * hh + y as u64) as usize;
        let ghost k0 = extent(ts[s as int], vert);
        let room: u32 = if vert {
            height - y
        } else {
            width - x
        };
        let mut k: u32 = if vert {
            tiles[s].size.1
        } else {
            tiles[s].size.0
        };
        let mut out: Vec<usize> = Vec::new();
        let mut done = false;
        let n = tiles.len();
        while k < room && !done
            invariant
                ts == layer_view(tiles@),
                n == tiles@.len(),
                hh == height as u64,
                grid_ok(ts, w, h),
                w == width,
                h == height,
                x < width,
                y < height,
                room == run_room(x as nat, y as nat, w, h, vert),
                s == cell_index(x as int, y as int, h as int),
                0 <= s < ts.len(),
                k >= 1,
                done ==> run(ts, w, h, tile_scale as nat, x as nat, y as nat, vert, k as nat)
                    == Seq::<int>::empty(),
                int_indices(out@) + run(ts, w, h, tile_scale as nat, x as nat, y as nat, vert, k as nat)
                    == run(ts, w, h, tile_scale as nat, x as nat, y as nat, vert, k0),
            decreases room - k + if done {
                0int
            } else {
                1int
            },
        {
            proof {
                lemma_run_cell(ts, w, h, x as nat, y as nat, vert, k as nat);
                if vert {
                    lemma_cell_index_bound(x as int, y + k, w as int, h as int);
                    assert(x * h + (y + k) < w * h);
                } else {
                    lemma_cell_index_bound(x + k, y as int, w as int, h as int);
                    assert((x + k) * h + y < w * h);
                }
            }
            let i = if vert {
                (x as u64 * hh + y as u64 + k as u64) as usize
            } else {
                ((x as u64 + k as u64) * hh + y as u64) as usize
            };
            let e = if vert {
                tiles[i].size.1
            } else {
                tiles[i].size.0
            };
            if !tiles[s].similar_line(&tiles[i]) {
                done = true;
            } else {
                proof {
                    assert(is_live(ts[i as int]));
                    assert(k + e <= room);
                    assert((k + e) * (tile_scale as int) <= u32::MAX * u32::MAX) by (nonlinear_arith)
                        requires
                            k + e <= u32::MAX,
                            tile_scale <= u32::MAX,
                    ;
                }
                if (k as u64 + e as u64) * (tile_scale as u64) > 500 {
                    done = true;
                } else {
                    proof {
                        let rest = run(ts, w, h, tile_scale as nat, x as nat, y as nat, vert, (k + e) as nat);
                        assert(run(ts, w, h, tile_scale as nat, x as nat, y as nat, vert, k as nat) == seq![i as int] + rest);
                        assert(int_indices(out@.push(i)) =~= int_indices(out@).push(i as int));
                        assert(int_indices(out@).push(i as int) + rest =~= int_indices(out@) + (seq![i as int] + rest));
                    }
                    out.push(i);
                    k = k + e;
                }
            }
        }
        proof {
            assert(run(ts, w, h, tile_scale as nat, x as nat, y as nat, vert, k as nat) =~= Seq::<int>::empty());
            assert(int_indices(out@) + Seq::<int>::empty() =~= int_indices(out@));
        }
        out
    }

    /// One run-merge pass over one layer; returns the number of tiles absorbed.
    fn line_optimize_tiles(tiles: &mut Vec<Tile>, width: u32, height: u32, tile_scale: u32) -> (count:
        usize)
        requires
            grid_ok(layer_view(old(tiles)@), width as nat, height as nat),
        ensures
            (layer_view(final(tiles)@), count as nat) == line_pass(
                layer_view(old(tiles)@),
                width as nat,
                height as nat,
                tile_scale as nat,
            ),
            grid_ok(layer_view(final(tiles)@), width as nat, height as nat),
    {
        let ghost w = width as nat;
        let ghost h = height as nat;
        let ghost sc = tile_scale as nat;
        let ghost start = layer_view(tiles@);
        let ghost target = line_pass(start, w, h, sc);
        let n = tiles.len();
        let hh = height as u64;
        let mut count: usize = 0;
        let mut x: u32 = 0;
        proof {
            lemma_live_count_bound(start);
        }
        while x < width
            invariant
                w == width,
                h == height,
                sc == tile_scale,
                hh == height as u64,
                n == tiles@.len(),
                grid_ok(layer_view(tiles@), w, h),
                line_from(layer_view(tiles@), w, h, sc, x as nat, 0).0 == target.0,
                count + line_from(layer_view(tiles@), w, h, sc, x as nat, 0).1 == target.1,
                count + live_count(layer_view(tiles@)) == live_count(start),
                live_count(start) <= n,
            decreases w - x,
        {
            let mut y: u32 = 0;
            while y < height
                invariant
                    w == width,
                    h == height,
                    sc == tile_scale,
                    hh == height as u64,
                    n == tiles@.len(),
                    x < width,
                    grid_ok(layer_view(tiles@), w, h),
                    line_from(layer_view(tiles@), w, h, sc, x as nat, y as nat).0 == target.0,
                    count + line_from(layer_view(tiles@), w, h, sc, x as nat, y as nat).1 == target.1,
                    count + live_count(layer_view(tiles@)) == live_count(start),
                    live_count(start) <= n,
                decreases h - y,
            {
                let ghost cur = layer_view(tiles@);
                proof {
                    lemma_cell_index_bound(x as int, y as int, w as int, h as int);
                    lemma_anchor(cur, w, h, x as int, y as int);
                    lemma_line_at(cur, cur, w, h, sc, x as nat, y as nat);
                }
                let start_i = (x as u64 * hh + y as u64) as usize;
                if tiles[start_i].parent.is_none() {
                    let horiz_tiles = Self::scan_run(tiles, width, height, tile_scale, x, y, false);
                    let vert_tiles = Self::scan_run(tiles, width, height, tile_scale, x, y, true);
                    proof {
                        lemma_run_absorb(cur, cur, w, h, sc, x as nat, y as nat, false, cur[start_i as int].size.0);
                        lemma_run_absorb(cur, cur, w, h, sc, x as nat, y as nat, true, cur[start_i as int].size.1);
                    }
                    if horiz_tiles.len() > vert_tiles.len() {
                        count = count + horiz_tiles.len();
                        Self::merge_line(tiles, start_i, horiz_tiles);
                    } else {
                        count = count + vert_tiles.len();
                        Self::merge_line(tiles, start_i, vert_tiles);
                    }
                }
                y = y + 1;
            }
            x = x + 1;
        }
        count
    }

    /// One 2x2 merge pass, at cells of extent `2^level` (`level` below 32, so
    /// that the extent fits in `u32`), over every layer; returns the number of
    /// tiles absorbed, a multiple of 3 per layer (held at `usize::MAX` should
    /// the total exceed it).
    pub fn quad_optimize_level(&mut self, level: u32) -> (count: usize)
        requires
            old(self).wf(),
            level < 32,
        ensures
            final(self).wf(),
            final(self).spec_width() == old(self).spec_width(),
            final(self).spec_height() == old(self).spec_height(),
            final(self).spec_levels() == old(self).spec_levels(),
            final(self).layer_views() == quad_layers(
                old(self).layer_views(),
                old(self).spec_width(),
                old(self).spec_height(),
                pow2(level as nat),
            ),
            count == saturate(
                (total_live(old(self).layer_views()) - total_live(final(self).layer_views())) as nat,
            ),
            total_live(final(self).layer_views()) <= total_live(old(self).layer_views()),
            count % 3 == 0,
    {
        let ghost w = self.width as nat;
        let ghost h = self.height as nat;
        let ghost before = self.layer_views();
        proof {
            lemma_pow2_bound(level as nat);
        }
        let space: u32 = 1u32 << level;
        proof {
            lemma_shl_pow2(level);
        }
        let width = self.width;
        let height = self.height;
        let mut count: usize = 0;
        let ghost mut removed: nat = 0;
        let mut i: usize = 0;
        while i < self.layers.len()
            invariant
                i <= self.layers@.len(),
                self.layers@.len() == before.len(),
                width == self.width,
                height == self.height,
                w == width,
                h == height,
                space >= 1,
                space == pow2(level as nat),
                self.levels == old(self).levels,
                self.width == old(self).width,
                self.height == old(self).height,
                before == old(self).layer_views(),
                old(self).wf(),
                forall|j: int| 0 <= j < i ==> #[trigger] self.layer_views()[j] == quad_pass(before[j], w, h, space as nat),
                forall|j: int| i <= j < before.len() ==> #[trigger] self.layer_views()[j] == before[j],
                removed + total_live(self.layer_views()) == total_live(before),
                count == saturate(removed),
                removed % 3 == 0,
                count % 3 == 0,
            decreases before.len() - i,
        {
            let ghost cur = self.layer_views();
            proof {
                assert(grid_ok(before[i as int], w, h));
                assert(cur[i as int] == before[i as int]);
            }
            let c = Self::quad_optimize_tiles(&mut self.layers[i], width, height, space);
            proof {
                lemma_total_live_update(cur, i as int, self.layer_views()[i as int]);
                assert(self.layer_views() =~= cur.update(i as int, self.layer_views()[i as int]));
                removed = removed + c as nat;
                assert(usize::MAX % 3 == 0) by {
                    assert(usize::MAX == 0xffff_ffff || usize::MAX == 0xffff_ffff_ffff_ffff);
                }
            }
            count = count.saturating_add(c);
            i += 1;
        }
        proof {
            assert(self.layer_views() =~= quad_layers(before, w, h, space as nat));
            assert forall|j: int| 0 <= j < self.layers@.len() implies grid_ok(
                #[trigger] self.layer_views()[j], w, h) by {
                lemma_quad_from(before[j], before[j], 0, w, h, space as nat, 0, 0);
            }
        }
        count
    }

    /// One run-merge pass over every layer, with a run's length times
    /// `tile_scale` kept within 500; returns the number of tiles absorbed
    /// (held at `usize::MAX` should the total exceed it).
    pub fn line_optimize(&mut self, tile_scale: u32) -> (count: usize)
        requires
            old(self).wf(),
        ensures
            final(self).wf(),
            final(self).spec_width() == old(self).spec_width(),
            final(self).spec_height() == old(self).spec_height(),
            final(self).spec_levels() == old(self).spec_levels(),
            final(self).layer_views() == line_layers(
                old(self).layer_views(),
                old(self).spec_width(),
                old(self).spec_height(),
                tile_scale as nat,
            ),
            count == saturate(
                line_removed(
                    old(self).layer_views(),
                    old(self).spec_width(),
                    old(self).spec_height(),
                    tile_scale as nat,
                ),
            ),
            total_live(final(self).layer_views()) + line_removed(
                old(self).layer_views(),
                old(self).spec_width(),
                old(self).spec_height(),
                tile_scale as nat,
            ) == total_live(old(self).layer_views()),
    {
        let ghost w = self.width as nat;
        let ghost h = self.height as nat;
        let ghost sc = tile_scale as nat;
        let ghost before = self.layer_views();
        let width = self.width;
        let height = self.height;
        let mut count: usize = 0;
        let mut i: usize = 0;
        while i < self.layers.len()
            invariant
                i <= self.layers@.len(),
                self.layers@.len() == before.len(),
                width == self.width,
                height == self.height,
                w == width,
                h == height,
                sc == tile_scale,
                self.levels == old(self).levels,
                self.width == old(self).width,
                self.height == old(self).height,
                before == old(self).layer_views(),
                old(self).wf(),
                forall|j: int| 0 <= j < i ==> #[trigger] self.layer_views()[j] == line_pass(before[j], w, h, sc).0,
                forall|j: int| i <= j < before.len() ==> #[trigger] self.layer_views()[j] == before[j],
                count == saturate(line_removed(before.take(i as int), w, h, sc)),
            decreases before.len() - i,
        {
            let ghost cur = self.layer_views();
            proof {
                assert(grid_ok(before[i as int], w, h));
                assert(cur[i as int] == before[i as int]);
            }
            let c = Self::line_optimize_tiles(&mut self.layers[i], width, height, tile_scale);
            proof {
                assert(self.layer_views() =~= cur.update(i as int, self.layer_views()[i as int]));
                assert(before.take(i + 1).drop_last() =~= before.take(i as int));
            }
            count = count.saturating_add(c);
            i += 1;
        }
        proof {
            assert(before.take(i as int) =~= before);
            assert(self.layer_views() =~= line_layers(before, w, h, sc));
            assert forall|j: int| 0 <= j < self.layers@.len() implies grid_ok(
                #[trigger] self.layer_views()[j], w, h) by {
                lemma_line_from(before[j], before[j], w, h, sc, 0, 0);
            }
            lemma_line_removed(before, w, h, sc);
        }
        count
    }
}

/// The 2x2 merge pass applied to every layer.
pub open spec fn quad_layers(ls: Seq<Seq<TileView>>, w: nat, h: nat, s: nat) -> Seq<Seq<TileView>> {
    Seq::new(ls.len(), |i: int| quad_pass(ls[i], w, h, s))
}

/// The run-merge pass applied to every layer.
pub open spec fn line_layers(ls: Seq<Seq<TileView>>, w: nat, h: nat, sc: nat) -> Seq<Seq<TileView>> {
    Seq::new(ls.len(), |i: int| line_pass(ls[i], w, h, sc).0)
}

/// Tiles absorbed by the run-merge pass over all layers.
pub open spec fn line_removed(ls: Seq<Seq<TileView>>, w: nat, h: nat, sc: nat) -> nat
    decreases ls.len(),
{
    if ls.len() == 0 {
        0
    } else {
        line_removed(ls.drop_last(), w, h, sc) + line_pass(ls.last(), w, h, sc).1
    }
}

pub proof fn lemma_total_live_update(ls: Seq<Seq<TileView>>, i: int, l: Seq<TileView>)
    requires
        0 <= i < ls.len(),
    ensures
        total_live(ls.update(i, l)) + live_count(ls[i]) == total_live(ls) + live_count(l),
    decreases ls.len(),
{
    if i == ls.len() - 1 {
        assert(ls.update(i, l).drop_last() =~= ls.drop_last());
    } else {
        assert(ls.update(i, l).drop_last() =~= ls.drop_last().update(i, l));
        lemma_total_live_update(ls.drop_last(), i, l);
    }
}

/// The live tiles left by a run-merge pass over all layers, with what it absorbed.
pub proof fn lemma_line_removed(ls: Seq<Seq<TileView>>, w: nat, h: nat, sc: nat)
    requires
        w <= u32::MAX,
        h <= u32::MAX,
        forall|j: int| 0 <= j < ls.len() ==> grid_ok(#[trigger] ls[j], w, h),
    ensures
        total_live(line_layers(ls, w, h, sc)) + line_removed(ls, w, h, sc) == total_live(ls),
    decreases ls.len(),
{
    if ls.len() > 0 {
        let init = ls.drop_last();
        lemma_line_removed(init, w, h, sc);
        assert(line_layers(ls, w, h, sc).drop_last() =~= line_layers(init, w, h, sc));
        lemma_line_from(ls.last(), ls.last(), w, h, sc, 0, 0);
    }
}

/// A run-merge pass over all layers that absorbs nothing changes nothing.
pub proof fn lemma_line_removed_zero(ls: Seq<Seq<TileView>>, w: nat, h: nat, sc: nat)
    requires
        w <= u32::MAX,
        h <= u32::MAX,
        forall|j: int| 0 <= j < ls.len() ==> grid_ok(#[trigger] ls[j], w, h),
        line_removed(ls, w, h, sc) == 0,
    ensures
        line_layers(ls, w, h, sc) == ls,
    decreases ls.len(),
{
    if ls.len() > 0 {
        let init = ls.drop_last();
        lemma_line_removed_zero(init, w, h, sc);
        lemma_line_from(ls.last(), ls.last(), w, h, sc, 0, 0);
        assert(line_layers(ls, w, h, sc).drop_last() =~= line_layers(init, w, h, sc));
        assert(line_pass(ls.last(), w, h, sc).1 == 0);
        assert forall|j: int| 0 <= j < ls.len() implies line_layers(ls, w, h, sc)[j] == ls[j] by {
            if j < ls.len() - 1 {
                assert(line_layers(init, w, h, sc)[j] == init[j]);
            }
        }
        assert(line_layers(ls, w, h, sc) =~= ls);
    }
}

proof fn lemma_pow2_bound(n: nat)
    requires
        n < 32,
    ensures
        1 <= pow2(n) <= 0x8000_0000,
{
    vstd::arithmetic::power2::lemma_pow2_pos(n);
    vstd::arithmetic::power2::lemma2_to64();
    if n < 31 {
        vstd::arithmetic::power2::lemma_pow2_strictly_increases(n, 31);
    }
}

proof fn lemma_shl_pow2(level: u32)
    requires
        level < 32,
    ensures
        (1u32 << level) == pow2(level as nat),
{
    lemma_pow2_bound(level as nat);
    vstd::bits::lemma_u32_shl_is_mul(1, level);
}

} // verus!
