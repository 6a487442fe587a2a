//! Building the initial grid, one tile per sample, in one layer or, above an
//! elevation threshold, in several.
use crate::map::{Colormap, Heightmap};
use crate::quad::{Level, QuadTree};
use crate::tile::{
    cell_index, covered, covers, grid_ok, is_live, layer_view, lemma_cell_index_bound, same_color,
    Tile, TileView, value_set,
};
use std::collections::HashMap;
use vstd::prelude::*;

verus! {

broadcast use vstd::std_specs::hash::group_hash_axioms;

/// Cell `(x2, y2)` comes before `(x, y)` in scan order (column by column).
pub open spec fn scanned_before(x2: int, y2: int, x: int, y: int) -> bool {
    x2 < x || (x2 == x && y2 < y)
}

pub open spec fn in_domain(w: u32, h: u32, x: u32, y: u32) -> bool {
    x < w && y < h
}

/// Elevations of the in-bounds left, right, upper and lower neighbours.
pub open spec fn neighbor_set<H: Heightmap + ?Sized>(hm: &H, w: u32, h: u32, x: u32, y: u32) -> Set<
    u32,
> {
    let l = if x > 0 {
        set![hm.spec_at((x - 1) as u32, y)]
    } else {
        Set::empty()
    };
    let r = if x + 1 < w {
        set![hm.spec_at((x + 1) as u32, y)]
    } else {
        Set::empty()
    };
    let u = if y > 0 {
        set![hm.spec_at(x, (y - 1) as u32)]
    } else {
        Set::empty()
    };
    let d = if y + 1 < h {
        set![hm.spec_at(x, (y + 1) as u32)]
    } else {
        Set::empty()
    };
    l.union(r).union(u).union(d)
}

/// How the tiles of one layer take their elevation and color.
#[derive(Clone, Copy)]
pub enum LayerKind {
    /// The samples as they are.
    Plain,
    /// Elevations capped at the level's; cells that were above it take its
    /// color, the others keep their own.
    Base(Level),
    /// Cells that qualify for the level take its elevation, the others 0;
    /// all take its color.
    Feature(Level),
}

/// Whether a sample belongs to a feature level: for a basin, its color and
/// elevation are the level's; otherwise it stands at least as high.
pub open spec fn qualifies(level: Level, height: u32, color: [u8; 4]) -> bool {
    if level.basin {
        color == level.color && height == level.height
    } else {
        height >= level.height
    }
}

/// Elevation and color of a sample in a layer of the given kind.
pub open spec fn tile_sample(kind: LayerKind, height: u32, color: [u8; 4]) -> (u32, [u8; 4]) {
    match kind {
        LayerKind::Plain => (height, color),
        LayerKind::Base(level) => {
            let capped = if height > level.height {
                level.height
            } else {
                height
            };
            (
                capped,
                if height > level.height {
                    level.color
                } else {
                    color
                },
            )
        },
        LayerKind::Feature(level) => (
            if qualifies(level, height, color) {
                level.height
            } else {
                0
            },
            level.color,
        ),
    }
}

/// The tile built for cell `(x, y)`.
pub open spec fn fresh_tile<H: Heightmap + ?Sized, C: Colormap + ?Sized>(
    hm: &H,
    cm: &C,
    w: u32,
    h: u32,
    kind: LayerKind,
    x: u32,
    y: u32,
) -> TileView {
    let (height, color) = tile_sample(kind, hm.spec_at(x, y), cm.spec_at(x, y));
    TileView {
        index: cell_index(x as int, y as int, h as int) as nat,
        center: (x as nat, y as nat),
        size: (1, 1),
        color,
        height,
        neighbors: neighbor_set(hm, w, h, x, y),
        parent: None,
    }
}

/// `ts` holds, at each cell's position, the tile built for that cell.
pub open spec fn fresh_layer<H: Heightmap + ?Sized, C: Colormap + ?Sized>(
    ts: Seq<TileView>,
    hm: &H,
    cm: &C,
    w: u32,
    h: u32,
    kind: LayerKind,
) -> bool {
    &&& ts.len() == w * h
    &&& forall|x: u32, y: u32|
        in_domain(w, h, x, y) ==> ts[cell_index(x as int, y as int, h as int)] == #[trigger] fresh_tile(
            hm,
            cm,
            w,
            h,
            kind,
            x,
            y,
        )
}

/// The distinct elevations of the samples.
pub open spec fn heights_present<H: Heightmap + ?Sized>(hm: &H, w: u32, h: u32) -> Set<u32> {
    Set::new(|d: u32| exists|x: u32, y: u32| in_domain(w, h, x, y) && #[trigger] hm.spec_at(x, y) == d)
}

/// The elevations kept as levels: all above `threshold`, and the highest at
/// or below it.
pub open spec fn retained<H: Heightmap + ?Sized>(hm: &H, w: u32, h: u32, threshold: u32) -> Set<u32> {
    let present = heights_present(hm, w, h);
    Set::new(
        |d: u32|
            present.contains(d) && (d > threshold || forall|e: u32|
                present.contains(e) && e <= threshold ==> e <= d),
    )
}

/// `(x, y)` is the last sample in scan order with elevation `d`.
pub open spec fn last_with_height<H: Heightmap + ?Sized>(
    hm: &H,
    w: u32,
    h: u32,
    d: u32,
    x: u32,
    y: u32,
) -> bool {
    &&& in_domain(w, h, x, y)
    &&& hm.spec_at(x, y) == d
    &&& forall|x2: u32, y2: u32|
        in_domain(w, h, x2, y2) && scanned_before(x as int, y as int, x2 as int, y2 as int)
            ==> #[trigger] hm.spec_at(x2, y2) != d
}

/// Some sample of elevation 0 has color `c`.
pub open spec fn seen_at_zero<H: Heightmap + ?Sized, C: Colormap + ?Sized>(
    hm: &H,
    cm: &C,
    w: u32,
    h: u32,
    c: [u8; 4],
) -> bool {
    exists|x: u32, y: u32|
        in_domain(w, h, x, y) && #[trigger] hm.spec_at(x, y) == 0 && cm.spec_at(x, y) == c
}

/// The levels of a layered grid: the retained elevations in ascending
/// order, each with the color of the last sample of that elevation, and
/// marked a basin when that color occurs at elevation 0.
pub open spec fn levels_ok<H: Heightmap + ?Sized, C: Colormap + ?Sized>(
    levels: Seq<Level>,
    hm: &H,
    cm: &C,
    w: u32,
    h: u32,
    threshold: u32,
) -> bool {
    &&& forall|i: int, j: int| 0 <= i < j < levels.len() ==> levels[i].height < levels[j].height
    &&& forall|d: u32|
        retained(hm, w, h, threshold).contains(d) <==> exists|i: int|
            0 <= i < levels.len() && #[trigger] levels[i].height == d
    &&& forall|i: int|
        0 <= i < levels.len() ==> {
            &&& exists|x: u32, y: u32|
                last_with_height(hm, w, h, (#[trigger] levels[i]).height, x, y) && levels[i].color
                    == cm.spec_at(x, y)
            &&& levels[i].basin == seen_at_zero(hm, cm, w, h, levels[i].color)
        }
}

/// Whether the grid is split into layers: a positive threshold and at least one sample.
pub open spec fn layered(w: u32, h: u32, threshold: u32) -> bool {
    threshold > 0 && w > 0 && h > 0
}

/// The grid that `QuadTree::new` builds.
pub open spec fn built<H: Heightmap + ?Sized, C: Colormap + ?Sized>(
    q: QuadTree,
    hm: &H,
    cm: &C,
    threshold: u32,
) -> bool {
    let (w, h) = hm.spec_size();
    let ls = q.layer_views();
    let levels = q.spec_levels();
    &&& q.wf()
    &&& q.spec_width() == w
    &&& q.spec_height() == h
    &&& if layered(w, h, threshold) {
        &&& levels.len() >= 1
        &&& levels_ok(levels, hm, cm, w, h, threshold)
        &&& fresh_layer(ls[0], hm, cm, w, h, LayerKind::Base(levels[0]))
        &&& forall|j: int|
            1 <= j < levels.len() ==> fresh_layer(
                #[trigger] ls[j],
                hm,
                cm,
                w,
                h,
                LayerKind::Feature(levels[j]),
            )
    } else {
        &&& levels.len() == 0
        &&& fresh_layer(ls[0], hm, cm, w, h, LayerKind::Plain)
    }
}

/// A layer of unmerged tiles, one per cell, is well formed.
pub proof fn lemma_fresh_layer_ok<H: Heightmap + ?Sized, C: Colormap + ?Sized>(
    ts: Seq<TileView>,
    hm: &H,
    cm: &C,
    w: u32,
    h: u32,
    kind: LayerKind,
)
    requires
        fresh_layer(ts, hm, cm, w, h, kind),
    ensures
        grid_ok(ts, w as nat, h as nat),
        forall|i: int| 0 <= i < ts.len() ==> (#[trigger] ts[i]).size == (1nat, 1nat),
{
    assert forall|i: int| 0 <= i < ts.len() implies {
        &&& (#[trigger] ts[i]).index == i
        &&& ts[i].center.0 < w
        &&& ts[i].center.1 < h
        &&& cell_index(ts[i].center.0 as int, ts[i].center.1 as int, h as int) == i
        &&& ts[i].size == (1nat, 1nat)
        &&& is_live(ts[i])
    } by {
        let x = i / (h as int);
        let y = i % (h as int);
        assert(h > 0) by {
            if h == 0 {
                assert(w * h == 0) by (nonlinear_arith)
                    requires
                        h == 0,
                ;
            }
        }
        vstd::arithmetic::div_mod::lemma_fundamental_div_mod(i, h as int);
        assert(x * h + y == i) by (nonlinear_arith)
            requires
                i == h * x + y,
        ;
        assert(x < w) by {
            if x >= w {
                assert(x * h >= w * h) by (nonlinear_arith)
                    requires
                        x >= w,
                        h > 0,
                ;
            }
        }
        assert(0 <= x) by {
            vstd::arithmetic::div_mod::lemma_div_pos_is_pos(i, h as int);
        }
        let t = fresh_tile(hm, cm, w, h, kind, x as u32, y as u32);
        assert(ts[cell_index(x, y, h as int)] == t);
    }
    assert forall|cx: int, cy: int| 0 <= cx < w && 0 <= cy < h implies #[trigger] covered(
        ts,
        cx,
        cy,
    ) by {
        lemma_cell_index_bound(cx, cy, w as int, h as int);
        let t = fresh_tile(hm, cm, w, h, kind, cx as u32, cy as u32);
        assert(ts[cell_index(cx, cy, h as int)] == t);
        assert(covers(ts[cell_index(cx, cy, h as int)], cx, cy));
    }
}

} // verus!

verus! {

/// Adds `e` to `v` unless it is there already.
fn add_height(v: &mut Vec<u32>, e: u32)
    ensures
        value_set(final(v)@) == value_set(old(v)@).insert(e),
{
    let mut i: usize = 0;
    let mut found = false;
    while i < v.len() && !found
        invariant
            i <= v.len(),
            found ==> v@.contains(e),
            !found ==> forall|j: int| 0 <= j < i ==> v@[j] != e,
        decreases v.len() - i + if found {
            0int
        } else {
            1int
        },
    {
        if v[i] == e {
            found = true;
            assert(v@[i as int] == e);
        } else {
            i += 1;
        }
    }
    let ghost before = v@;
    if !found {
        v.push(e);
        assert(v@[before.len() as int] == e);
    }
    assert forall|x: u32| #[trigger] value_set(v@).contains(x) == value_set(before).insert(e).contains(
        x,
    ) by {
        if v@.contains(x) && !found {
            let j = choose|j: int| 0 <= j < v@.len() && v@[j] == x;
            if j < before.len() {
                assert(before[j] == x);
            }
        }
        if before.contains(x) {
            let j = choose|j: int| 0 <= j < before.len() && before[j] == x;
            assert(v@[j] == x);
        }
    }
    assert(value_set(v@) =~= value_set(before).insert(e));
}

/// Distinct elevations of the in-bounds neighbours of `(x, y)`.
fn neighbor_heights<H: Heightmap + ?Sized>(hm: &H, width: u32, height: u32, x: u32, y: u32) -> (r:
    Vec<u32>)
    requires
        hm.spec_size() == (width, height),
        x < width,
        y < height,
    ensures
        value_set(r@) == neighbor_set(hm, width, height, x, y),
{
    let mut r: Vec<u32> = Vec::new();
    let ghost mut acc: Set<u32> = Set::empty();
    proof {
        let empty: Seq<u32> = Seq::empty();
        assert(value_set(empty) =~= Set::empty());
    }
    if x > 0 {
        add_height(&mut r, hm.at(x - 1, y));
    }
    proof {
        acc = if x > 0 {
            set![hm.spec_at((x - 1) as u32, y)]
        } else {
            Set::empty()
        };
        assert(value_set(r@) =~= acc);
    }
    if x + 1 < width {
        add_height(&mut r, hm.at(x + 1, y));
    }
    proof {
        acc = acc.union(
            if x + 1 < width {
                set![hm.spec_at((x + 1) as u32, y)]
            } else {
                Set::empty()
            },
        );
        assert(value_set(r@) =~= acc);
    }
    if y > 0 {
        add_height(&mut r, hm.at(x, y - 1));
    }
    proof {
        acc = acc.union(
            if y > 0 {
                set![hm.spec_at(x, (y - 1) as u32)]
            } else {
                Set::empty()
            },
        );
        assert(value_set(r@) =~= acc);
    }
    if y + 1 < height {
        add_height(&mut r, hm.at(x, y + 1));
    }
    proof {
        acc = acc.union(
            if y + 1 < height {
                set![hm.spec_at(x, (y + 1) as u32)]
            } else {
                Set::empty()
            },
        );
        assert(value_set(r@) =~= acc);
    }
    r
}

/// Elevation and color of a sample in a layer of the given kind.
fn sample_in(kind: LayerKind, height: u32, color: [u8; 4]) -> (r: (u32, [u8; 4]))
    ensures
        r == tile_sample(kind, height, color),
{
    match kind {
        LayerKind::Plain => (height, color),
        LayerKind::Base(level) => {
            let capped = if height > level.height {
                level.height
            } else {
                height
            };
            (
                capped,
                if height > level.height {
                    level.color
                } else {
                    color
                },
            )
        },
        LayerKind::Feature(level) => {
            let q = if level.basin {
                same_color(&color, &level.color) && height == level.height
            } else {
                height >= level.height
            };
            (
                if q {
                    level.height
                } else {
                    0
                },
                level.color,
            )
        },
    }
}

/// One layer of unmerged tiles, one per sample, in column-major order.
fn build_layer<H: Heightmap + ?Sized, C: Colormap + ?Sized>(
    hm: &H,
    cm: &C,
    width: u32,
    height: u32,
    kind: LayerKind,
) -> (r: Vec<Tile>)
    requires
        hm.spec_size() == (width, height),
        cm.spec_size() == (width, height),
    ensures
        fresh_layer(layer_view(r@), hm, cm, width, height, kind),
{
    let mut tiles: Vec<Tile> = Vec::new();
    let ghost h = height as int;
    let mut x: u32 = 0;
    while x < width
        invariant
            x <= width,
            h == height,
            hm.spec_size() == (width, height),
            cm.spec_size() == (width, height),
            tiles@.len() == x * h,
            forall|x2: u32, y2: u32|
                in_domain(width, height, x2, y2) && x2 < x ==> layer_view(tiles@)[cell_index(
                    x2 as int,
                    y2 as int,
                    h,
                )] == #[trigger] fresh_tile(hm, cm, width, height, kind, x2, y2),
        decreases width - x,
    {
        let mut y: u32 = 0;
        while y < height
            invariant
                x < width,
                y <= height,
                h == height,
                hm.spec_size() == (width, height),
                cm.spec_size() == (width, height),
                tiles@.len() == x * h + y,
                forall|x2: u32, y2: u32|
                    in_domain(width, height, x2, y2) && scanned_before(
                        x2 as int,
                        y2 as int,
                        x as int,
                        y as int,
                    ) ==> layer_view(tiles@)[cell_index(x2 as int, y2 as int, h)]
                        == #[trigger] fresh_tile(hm, cm, width, height, kind, x2, y2),
            decreases height - y,
        {
            let ghost before = tiles@;
            let (th, tc) = sample_in(kind, hm.at(x, y), cm.at(x, y));
            let index = tiles.len();
            tiles.push(
                Tile {
                    index,
                    center: (x, y),
                    size: (1, 1),
                    color: tc,
                    height: th,
                    neighbors: neighbor_heights(hm, width, height, x, y),
                    parent: None,
                },
            );
            proof {
                assert forall|x2: u32, y2: u32|
                    in_domain(width, height, x2, y2) && scanned_before(
                        x2 as int,
                        y2 as int,
                        x as int,
                        y + 1,
                    ) implies layer_view(tiles@)[cell_index(x2 as int, y2 as int, h)]
                    == #[trigger] fresh_tile(hm, cm, width, height, kind, x2, y2) by {
                    lemma_cell_index_bound(x2 as int, y2 as int, x as int + 1, h);
                    if x2 == x && y2 == y {
                    } else {
                        assert(scanned_before(x2 as int, y2 as int, x as int, y as int));
                        if x2 < x {
                            lemma_cell_index_bound(x2 as int, y2 as int, x as int, h);
                        }
                        assert(layer_view(tiles@)[cell_index(x2 as int, y2 as int, h)]
                            == layer_view(before)[cell_index(x2 as int, y2 as int, h)]);
                    }
                }
            }
            y = y + 1;
        }
        proof {
            assert((x + 1) * h == x * h + h) by (nonlinear_arith);
        }
        x = x + 1;
    }
    tiles
}

} // verus!

verus! {

/// Cell `(x2, y2)` of the domain was scanned before cursor `(x, y)`.
pub open spec fn seen(w: u32, h: u32, x2: u32, y2: u32, x: u32, y: u32) -> bool {
    in_domain(w, h, x2, y2) && scanned_before(x2 as int, y2 as int, x as int, y as int)
}

/// Among the cells scanned before the cursor, `(x2, y2)` is the last of elevation `d`.
pub open spec fn last_seen<H: Heightmap + ?Sized>(
    hm: &H,
    w: u32,
    h: u32,
    d: u32,
    x2: u32,
    y2: u32,
    x: u32,
    y: u32,
) -> bool {
    &&& seen(w, h, x2, y2, x, y)
    &&& hm.spec_at(x2, y2) == d
    &&& forall|x3: u32, y3: u32|
        seen(w, h, x3, y3, x, y) && scanned_before(x2 as int, y2 as int, x3 as int, y3 as int)
            ==> #[trigger] hm.spec_at(x3, y3) != d
}

/// What the pre-scan knows after the cells before cursor `(x, y)`.
pub open spec fn scan_state<H: Heightmap + ?Sized, C: Colormap + ?Sized>(
    hm: &H,
    cm: &C,
    w: u32,
    h: u32,
    x: u32,
    y: u32,
    reps: Map<u32, [u8; 4]>,
    keys: Seq<u32>,
    zeros: Seq<[u8; 4]>,
) -> bool {
    &&& keys.no_duplicates()
    &&& forall|d: u32| #[trigger] reps.contains_key(d) <==> keys.contains(d)
    &&& forall|d: u32|
        #[trigger] keys.contains(d) <==> exists|x2: u32, y2: u32|
            seen(w, h, x2, y2, x, y) && #[trigger] hm.spec_at(x2, y2) == d
    &&& forall|d: u32|
        #[trigger] reps.contains_key(d) ==> exists|x2: u32, y2: u32|
            last_seen(hm, w, h, d, x2, y2, x, y) && #[trigger] cm.spec_at(x2, y2) == reps[d]
    &&& forall|c: [u8; 4]|
        #[trigger] zeros.contains(c) <==> exists|x2: u32, y2: u32|
            seen(w, h, x2, y2, x, y) && #[trigger] hm.spec_at(x2, y2) == 0 && cm.spec_at(x2, y2) == c
}

/// Whether `v` holds color `c`.
fn has_color(v: &Vec<[u8; 4]>, c: &[u8; 4]) -> (r: bool)
    ensures
        r == v@.contains(*c),
{
    let mut i: usize = 0;
    while i < v.len()
        invariant
            i <= v.len(),
            forall|j: int| 0 <= j < i ==> v@[j] != *c,
        decreases v.len() - i,
    {
        if same_color(&v[i], c) {
            assert(v@[i as int] == *c);
            return true;
        }
        i += 1;
    }
    false
}

/// Relies on `slice::sort_unstable`: afterwards the values are in ascending
/// order and are the values that were there before.
#[verifier::external_body]
fn sort_ascending(v: &mut Vec<u32>)
    ensures
        final(v)@.to_multiset() == old(v)@.to_multiset(),
        forall|i: int, j: int| 0 <= i < j < final(v)@.len() ==> final(v)@[i] <= final(v)@[j],
{
    v.sort_unstable();
}

/// One pass over every sample: the distinct elevations, the color of the
/// last sample of each, and the colors seen at elevation 0.
fn prescan<H: Heightmap + ?Sized, C: Colormap + ?Sized>(hm: &H, cm: &C, width: u32, height: u32) -> (r: (
    HashMap<u32, [u8; 4]>,
    Vec<u32>,
    Vec<[u8; 4]>,
))
    requires
        hm.spec_size() == (width, height),
        cm.spec_size() == (width, height),
    ensures
        scan_state(hm, cm, width, height, width, 0, r.0@, r.1@, r.2@),
{
    let mut reps: HashMap<u32, [u8; 4]> = HashMap::new();
    let mut keys: Vec<u32> = Vec::new();
    let mut zeros: Vec<[u8; 4]> = Vec::new();
    let mut x: u32 = 0;
    proof {
        assert(reps@ =~= Map::<u32, [u8; 4]>::empty());
    }
    while x < width
        invariant
            x <= width,
            hm.spec_size() == (width, height),
            cm.spec_size() == (width, height),
            scan_state(hm, cm, width, height, x, 0, reps@, keys@, zeros@),
        decreases width - x,
    {
        let mut y: u32 = 0;
        while y < height
            invariant
                x < width,
                y <= height,
                hm.spec_size() == (width, height),
                cm.spec_size() == (width, height),
                scan_state(hm, cm, width, height, x, y, reps@, keys@, zeros@),
            decreases height - y,
        {
            let ghost (r0, k0, z0) = (reps@, keys@, zeros@);
            let d = hm.at(x, y);
            let c = cm.at(x, y);
            if d == 0 && !has_color(&zeros, &c) {
                zeros.push(c);
            }
            if !reps.contains_key(&d) {
                keys.push(d);
            }
            reps.insert(d, c);
            proof {
                let (x1, y1) = (x, (y + 1) as u32);
                assert forall|x2: u32, y2: u32| #[trigger] seen(width, height, x2, y2, x1, y1) <==> (seen(
                    width,
                    height,
                    x2,
                    y2,
                    x,
                    y,
                ) || (x2 == x && y2 == y)) by {}
                // keys
                assert(keys@.no_duplicates()) by {
                    if !k0.contains(d) {
                        assert forall|i: int, j: int|
                            0 <= i < keys@.len() && 0 <= j < keys@.len() && i != j implies keys@[i]
                            != keys@[j] by {
                            if i == k0.len() as int {
                                assert(!k0.contains(keys@[j]) || keys@[j] != d);
                                if j < k0.len() {
                                    assert(k0[j] == keys@[j]);
                                }
                            } else if j == k0.len() as int {
                                if i < k0.len() {
                                    assert(k0[i] == keys@[i]);
                                }
                            }
                        }
                    }
                }
                assert forall|e: u32| #[trigger] keys@.contains(e) <==> exists|x2: u32, y2: u32|
                    seen(width, height, x2, y2, x1, y1) && #[trigger] hm.spec_at(x2, y2) == e by {
                    if keys@.contains(e) {
                        if e == d {
                            assert(seen(width, height, x, y, x1, y1));
                        } else {
                            let i = choose|i: int| 0 <= i < keys@.len() && keys@[i] == e;
                            if i < k0.len() {
                                assert(k0[i] == e);
                            }
                            assert(k0.contains(e));
                            let (x2, y2) = choose|x2: u32, y2: u32|
                                seen(width, height, x2, y2, x, y) && #[trigger] hm.spec_at(x2, y2) == e;
                            assert(seen(width, height, x2, y2, x1, y1));
                        }
                    }
                    if exists|x2: u32, y2: u32|
                        seen(width, height, x2, y2, x1, y1) && #[trigger] hm.spec_at(x2, y2) == e {
                        let (x2, y2) = choose|x2: u32, y2: u32|
                            seen(width, height, x2, y2, x1, y1) && #[trigger] hm.spec_at(x2, y2) == e;
                        if x2 == x && y2 == y {
                            if k0.contains(d) {
                                let i = choose|i: int| 0 <= i < k0.len() && k0[i] == d;
                                assert(keys@[i] == d);
                            } else {
                                assert(keys@[k0.len() as int] == d);
                            }
                        } else {
                            assert(seen(width, height, x2, y2, x, y));
                            assert(k0.contains(e));
                            let i = choose|i: int| 0 <= i < k0.len() && k0[i] == e;
                            assert(keys@[i] == e);
                        }
                    }
                }
                assert forall|e: u32| #[trigger] reps@.contains_key(e) <==> keys@.contains(e) by {
                    if e != d {
                        if k0.contains(e) {
                            let i = choose|i: int| 0 <= i < k0.len() && k0[i] == e;
                            assert(keys@[i] == e);
                        }
                        if keys@.contains(e) {
                            let i = choose|i: int| 0 <= i < keys@.len() && keys@[i] == e;
                            if i < k0.len() {
                                assert(k0[i] == e);
                            }
                        }
                    } else {
                        if k0.contains(d) {
                            let i = choose|i: int| 0 <= i < k0.len() && k0[i] == d;
                            assert(keys@[i] == d);
                        } else {
                            assert(keys@[k0.len() as int] == d);
                        }
                    }
                }
                assert forall|e: u32| #[trigger] reps@.contains_key(e) implies exists|x2: u32, y2: u32|
                    last_seen(hm, width, height, e, x2, y2, x1, y1) && #[trigger] cm.spec_at(x2, y2)
                        == reps@[e] by {
                    if e == d {
                        assert(last_seen(hm, width, height, e, x, y, x1, y1));
                    } else {
                        let (x2, y2) = choose|x2: u32, y2: u32|
                            last_seen(hm, width, height, e, x2, y2, x, y) && #[trigger] cm.spec_at(x2, y2)
                                == r0[e];
                        assert(last_seen(hm, width, height, e, x2, y2, x1, y1));
                    }
                }
                assert forall|cz: [u8; 4]| #[trigger] zeros@.contains(cz) <==> exists|x2: u32, y2: u32|
                    seen(width, height, x2, y2, x1, y1) && #[trigger] hm.spec_at(x2, y2) == 0
                        && cm.spec_at(x2, y2) == cz by {
                    if zeros@.contains(cz) {
                        if z0.contains(cz) {
                            let (x2, y2) = choose|x2: u32, y2: u32|
                                seen(width, height, x2, y2, x, y) && #[trigger] hm.spec_at(x2, y2) == 0
                                    && cm.spec_at(x2, y2) == cz;
                            assert(seen(width, height, x2, y2, x1, y1));
                        } else {
                            let i = choose|i: int| 0 <= i < zeros@.len() && zeros@[i] == cz;
                            if i < z0.len() {
                                assert(z0[i] == cz);
                            }
                            assert(seen(width, height, x, y, x1, y1));
                        }
                    }
                    if exists|x2: u32, y2: u32|
                        seen(width, height, x2, y2, x1, y1) && #[trigger] hm.spec_at(x2, y2) == 0
                            && cm.spec_at(x2, y2) == cz {
                        let (x2, y2) = choose|x2: u32, y2: u32|
                            seen(width, height, x2, y2, x1, y1) && #[trigger] hm.spec_at(x2, y2) == 0
                                && cm.spec_at(x2, y2) == cz;
                        if x2 == x && y2 == y {
                            if z0.contains(cz) {
                                let i = choose|i: int| 0 <= i < z0.len() && z0[i] == cz;
                                assert(zeros@[i] == cz);
                            } else {
                                assert(zeros@[z0.len() as int] == cz);
                            }
                        } else {
                            assert(seen(width, height, x2, y2, x, y));
                            assert(z0.contains(cz));
                            let i = choose|i: int| 0 <= i < z0.len() && z0[i] == cz;
                            assert(zeros@[i] == cz);
                        }
                    }
                }
            }
            y = y + 1;
        }
        proof {
            assert forall|x2: u32, y2: u32| #[trigger] seen(width, height, x2, y2, (x + 1) as u32, 0) <==> seen(
                width,
                height,
                x2,
                y2,
                x,
                height,
            ) by {}
            assert forall|e: u32| #[trigger] keys@.contains(e) <==> exists|x2: u32, y2: u32|
                seen(width, height, x2, y2, (x + 1) as u32, 0) && #[trigger] hm.spec_at(x2, y2) == e by {
                if keys@.contains(e) {
                    let (x2, y2) = choose|x2: u32, y2: u32|
                        seen(width, height, x2, y2, x, height) && #[trigger] hm.spec_at(x2, y2) == e;
                    assert(seen(width, height, x2, y2, (x + 1) as u32, 0));
                }
                if exists|x2: u32, y2: u32|
                    seen(width, height, x2, y2, (x + 1) as u32, 0) && #[trigger] hm.spec_at(x2, y2) == e {
                    let (x2, y2) = choose|x2: u32, y2: u32|
                        seen(width, height, x2, y2, (x + 1) as u32, 0) && #[trigger] hm.spec_at(x2, y2) == e;
                    assert(seen(width, height, x2, y2, x, height));
                }
            }
            assert forall|e: u32| #[trigger] reps@.contains_key(e) implies exists|x2: u32, y2: u32|
                last_seen(hm, width, height, e, x2, y2, (x + 1) as u32, 0) && #[trigger] cm.spec_at(
                    x2,
                    y2,
                ) == reps@[e] by {
                let (x2, y2) = choose|x2: u32, y2: u32|
                    last_seen(hm, width, height, e, x2, y2, x, height) && #[trigger] cm.spec_at(x2, y2)
                        == reps@[e];
                assert(last_seen(hm, width, height, e, x2, y2, (x + 1) as u32, 0));
            }
            assert forall|cz: [u8; 4]| #[trigger] zeros@.contains(cz) <==> exists|x2: u32, y2: u32|
                seen(width, height, x2, y2, (x + 1) as u32, 0) && #[trigger] hm.spec_at(x2, y2) == 0
                    && cm.spec_at(x2, y2) == cz by {
                if zeros@.contains(cz) {
                    let (x2, y2) = choose|x2: u32, y2: u32|
                        seen(width, height, x2, y2, x, height) && #[trigger] hm.spec_at(x2, y2) == 0
                            && cm.spec_at(x2, y2) == cz;
                    assert(seen(width, height, x2, y2, (x + 1) as u32, 0));
                }
                if exists|x2: u32, y2: u32|
                    seen(width, height, x2, y2, (x + 1) as u32, 0) && #[trigger] hm.spec_at(x2, y2) == 0
                        && cm.spec_at(x2, y2) == cz {
                    let (x2, y2) = choose|x2: u32, y2: u32|
                        seen(width, height, x2, y2, (x + 1) as u32, 0) && #[trigger] hm.spec_at(x2, y2)
                            == 0 && cm.spec_at(x2, y2) == cz;
                    assert(seen(width, height, x2, y2, x, height));
                }
            }
        }
        x = x + 1;
    }
    (reps, keys, zeros)
}

} // verus!

verus! {

/// The levels of a layered grid; see `levels_ok`.
fn find_levels<H: Heightmap + ?Sized, C: Colormap + ?Sized>(
    hm: &H,
    cm: &C,
    width: u32,
    height: u32,
    threshold: u32,
) -> (levels: Vec<Level>)
    requires
        hm.spec_size() == (width, height),
        cm.spec_size() == (width, height),
        layered(width, height, threshold),
    ensures
        levels@.len() >= 1,
        levels_ok(levels@, hm, cm, width, height, threshold),
{
    let (reps, keys, zeros) = prescan(hm, cm, width, height);
    let ghost present = heights_present(hm, width, height);
    proof {
        assert forall|d: u32| #[trigger] present.contains(d) <==> keys@.contains(d) by {
            if present.contains(d) {
                let (x2, y2) = choose|x2: u32, y2: u32|
                    in_domain(width, height, x2, y2) && #[trigger] hm.spec_at(x2, y2) == d;
                assert(seen(width, height, x2, y2, width, 0));
            }
        }
    }
    // the elevations above the threshold, and the highest at or below it
    let mut picked: Vec<u32> = Vec::new();
    let mut best: Option<u32> = None;
    let mut i: usize = 0;
    while i < keys.len()
        invariant
            i <= keys@.len(),
            keys@.no_duplicates(),
            picked@.no_duplicates(),
            forall|d: u32|
                #[trigger] picked@.contains(d) <==> (d > threshold && keys@.subrange(0, i as int).contains(d)),
            best is None <==> forall|j: int| 0 <= j < i ==> keys@[j] > threshold,
            best matches Some(b) ==> b <= threshold && keys@.subrange(0, i as int).contains(b)
                && forall|j: int| 0 <= j < i && keys@[j] <= threshold ==> keys@[j] <= b,
        decreases keys.len() - i,
    {
        let d = keys[i];
        let ghost p0 = picked@;
        proof {
            assert(keys@.subrange(0, i + 1) =~= keys@.subrange(0, i as int).push(d));
        }
        if d > threshold {
            proof {
                assert(!keys@.subrange(0, i as int).contains(d)) by {
                    if keys@.subrange(0, i as int).contains(d) {
                        let pre = keys@.subrange(0, i as int);
                        let j = choose|j: int| 0 <= j < pre.len() && pre[j] == d;
                        assert(keys@[j] == keys@[i as int]);
                    }
                }
                assert(!picked@.contains(d));
                assert forall|a: int, b: int|
                    0 <= a < picked@.push(d).len() && 0 <= b < picked@.push(d).len() && a != b implies picked@.push(
                    d,
                )[a] != picked@.push(d)[b] by {
                    if a < picked@.len() && b < picked@.len() {
                    } else if a < picked@.len() {
                        assert(picked@.contains(picked@[a]));
                    } else {
                        assert(picked@.contains(picked@[b]));
                    }
                }
            }
            picked.push(d);
        } else {
            match best {
                Some(b) => {
                    if d > b {
                        best = Some(d);
                    }
                },
                None => {
                    best = Some(d);
                },
            }
        }
        proof {
            let pre0 = keys@.subrange(0, i as int);
            let pre1 = keys@.subrange(0, i + 1);
            assert forall|e: u32|
                #[trigger] picked@.contains(e) <==> (e > threshold && pre1.contains(e)) by {
                if picked@.contains(e) {
                    let j = choose|j: int| 0 <= j < picked@.len() && picked@[j] == e;
                    if j < p0.len() {
                        assert(p0[j] == e);
                        assert(p0.contains(e));
                        let k = choose|k: int| 0 <= k < pre0.len() && pre0[k] == e;
                        assert(pre1[k] == e);
                    } else {
                        assert(pre1[i as int] == d);
                    }
                }
                if e > threshold && pre1.contains(e) {
                    let j = choose|j: int| 0 <= j < pre1.len() && pre1[j] == e;
                    if j < i {
                        assert(pre0[j] == e);
                        assert(p0.contains(e));
                        let k = choose|k: int| 0 <= k < p0.len() && p0[k] == e;
                        assert(picked@[k] == e);
                    } else {
                        assert(picked@[picked@.len() - 1] == d);
                    }
                }
            }
            if best is Some {
                let b = best->Some_0;
                if b == d {
                    assert(pre1[i as int] == d);
                } else {
                    let j = choose|j: int| 0 <= j < pre0.len() && pre0[j] == b;
                    assert(pre1[j] == b);
                }
            }
        }
        i += 1;
    }
    proof {
        assert(keys@.subrange(0, i as int) =~= keys@);
    }
    let ghost above = picked@;
    match best {
        Some(b) => {
            proof {
                assert(!picked@.contains(b));
                assert forall|a: int, c: int|
                    0 <= a < picked@.push(b).len() && 0 <= c < picked@.push(b).len() && a != c implies picked@.push(
                    b,
                )[a] != picked@.push(b)[c] by {
                    if a < picked@.len() && c < picked@.len() {
                    } else if a < picked@.len() {
                        assert(picked@.contains(picked@[a]));
                    } else {
                        assert(picked@.contains(picked@[c]));
                    }
                }
            }
            picked.push(b);
        },
        None => {},
    }
    let ghost unsorted = picked@;
    proof {
        assert(unsorted.len() >= above.len());
        assert forall|j: int| 0 <= j < above.len() implies unsorted[j] == above[j] by {}
        // the picked elevations are exactly the retained ones
        assert forall|d: u32| #[trigger] unsorted.contains(d) <==> retained(hm, width, height, threshold).contains(d) by {
            if unsorted.contains(d) {
                let j = choose|j: int| 0 <= j < unsorted.len() && unsorted[j] == d;
                if j < above.len() {
                    assert(above[j] == d);
                    assert(above.contains(d));
                    assert(keys@.contains(d));
                    assert(present.contains(d));
                } else {
                    assert(best == Some(d));
                    assert(keys@.contains(d));
                    assert(present.contains(d));
                    assert forall|e: u32| present.contains(e) && e <= threshold implies e <= d by {
                        assert(keys@.contains(e));
                        let k = choose|k: int| 0 <= k < keys@.len() && keys@[k] == e;
                    }
                }
            }
            if retained(hm, width, height, threshold).contains(d) {
                assert(present.contains(d));
                assert(keys@.contains(d));
                if d > threshold {
                    assert(above.contains(d));
                    let j = choose|j: int| 0 <= j < above.len() && above[j] == d;
                    assert(unsorted[j] == d);
                } else {
                    let k = choose|k: int| 0 <= k < keys@.len() && keys@[k] == d;
                    assert(best is Some);
                    let b = best->Some_0;
                    let kb = choose|kb: int| 0 <= kb < keys@.len() && keys@[kb] == b;
                    assert(keys@.contains(b));
                    assert(present.contains(b));
                    assert(b <= d && d <= b);
                    assert(unsorted[unsorted.len() - 1] == d);
                }
            }
        }
    }
    sort_ascending(&mut picked);
    let ghost sorted = picked@;
    proof {
        unsorted.lemma_multiset_has_no_duplicates();
        assert forall|x: u32| sorted.to_multiset().contains(x) implies sorted.to_multiset().count(x) == 1 by {}
        sorted.lemma_multiset_has_no_duplicates_conv();
        sorted.to_multiset_ensures();
        unsorted.to_multiset_ensures();
        assert forall|d: u32| #[trigger] sorted.contains(d) <==> unsorted.contains(d) by {
            assert(sorted.to_multiset().count(d) == unsorted.to_multiset().count(d));
        }
        assert(unsorted.len() >= 1) by {
            // a sample exists; its elevation or a higher one is retained
            let e = hm.spec_at(0, 0);
            assert(in_domain(width, height, 0, 0));
            assert(present.contains(e));
            assert(keys@.contains(e));
            let k = choose|k: int| 0 <= k < keys@.len() && keys@[k] == e;
            if e > threshold {
                assert(above.contains(e));
                assert(above.len() >= 1);
            } else {
                assert(keys@[k] <= threshold);
                assert(best is Some);
            }
        }
        sorted.to_multiset_ensures();
        unsorted.to_multiset_ensures();
    }
    let mut levels: Vec<Level> = Vec::new();
    let mut j: usize = 0;
    while j < picked.len()
        invariant
            j <= picked@.len(),
            picked@ == sorted,
            sorted.no_duplicates(),
            forall|a: int, b: int| 0 <= a < b < sorted.len() ==> sorted[a] <= sorted[b],
            levels@.len() == j,
            forall|a: int| 0 <= a < j ==> (#[trigger] levels@[a]).height == sorted[a],
            forall|a: int|
                0 <= a < j ==> {
                    &&& exists|x: u32, y: u32|
                        last_with_height(hm, width, height, (#[trigger] levels@[a]).height, x, y)
                            && levels@[a].color == cm.spec_at(x, y)
                    &&& levels@[a].basin == seen_at_zero(hm, cm, width, height, levels@[a].color)
                },
            scan_state(hm, cm, width, height, width, 0, reps@, keys@, zeros@),
            forall|d: u32| #[trigger] sorted.contains(d) ==> present.contains(d),
            forall|d: u32| #[trigger] present.contains(d) <==> keys@.contains(d),
            hm.spec_size() == (width, height),
            cm.spec_size() == (width, height),
        decreases picked.len() - j,
    {
        let d = picked[j];
        proof {
            assert(sorted.contains(d));
            assert(keys@.contains(d));
            assert(reps@.contains_key(d));
        }
        let color = match reps.get(&d) {
            Some(c) => *c,
            None => [0u8; 4],
        };
        let basin = has_color(&zeros, &color);
        proof {
            let (x2, y2) = choose|x2: u32, y2: u32|
                last_seen(hm, width, height, d, x2, y2, width, 0) && #[trigger] cm.spec_at(x2, y2)
                    == reps@[d];
            assert(last_with_height(hm, width, height, d, x2, y2));
            assert(zeros@.contains(color) == seen_at_zero(hm, cm, width, height, color)) by {
                if seen_at_zero(hm, cm, width, height, color) {
                    let (x3, y3) = choose|x3: u32, y3: u32|
                        in_domain(width, height, x3, y3) && #[trigger] hm.spec_at(x3, y3) == 0
                            && cm.spec_at(x3, y3) == color;
                    assert(seen(width, height, x3, y3, width, 0));
                }
            }
        }
        levels.push(Level { height: d, color, basin });
        j += 1;
    }
    proof {
        assert forall|a: int, b: int| 0 <= a < b < levels@.len() implies levels@[a].height < levels@[b].height by {
            assert(sorted[a] != sorted[b]);
        }
        assert forall|d: u32|
            retained(hm, width, height, threshold).contains(d) <==> exists|a: int|
                0 <= a < levels@.len() && #[trigger] levels@[a].height == d by {
            if retained(hm, width, height, threshold).contains(d) {
                assert(sorted.contains(d));
                let a = choose|a: int| 0 <= a < sorted.len() && sorted[a] == d;
                assert(levels@[a].height == d);
            }
            if exists|a: int| 0 <= a < levels@.len() && #[trigger] levels@[a].height == d {
                let a = choose|a: int| 0 <= a < levels@.len() && #[trigger] levels@[a].height == d;
                assert(sorted[a] == d);
                assert(sorted.contains(d));
            }
        }
        assert forall|a: int| 0 <= a < levels@.len() implies {
            &&& exists|x: u32, y: u32|
                last_with_height(hm, width, height, (#[trigger] levels@[a]).height, x, y) && levels@[a].color
                    == cm.spec_at(x, y)
            &&& levels@[a].basin == seen_at_zero(hm, cm, width, height, levels@[a].color)
        } by {}
        assert(forall|a: int, b: int| 0 <= a < b < levels@.len() ==> levels@[a].height < levels@[b].height);
        assert(forall|d: u32|
            retained(hm, width, height, threshold).contains(d) <==> exists|i: int|
                0 <= i < levels@.len() && #[trigger] levels@[i].height == d);
        assert(levels_ok(levels@, hm, cm, width, height, threshold));
    }
    levels
}

} // verus!

verus! {

impl QuadTree {
    /// Builds the grid from the samples: one tile per sample in a single
    /// layer, or, when `gen_full_layers_above_height` is positive, a base
    /// layer plus one feature layer per retained elevation above the first.
    /// Fails when the two providers' domains differ.
    pub fn new<H: Heightmap + ?Sized, C: Colormap + ?Sized>(
        heightmap: &H,
        colormap: &C,
        gen_full_layers_above_height: u32,
    ) -> (r: Result<Self, String>)
        ensures
            r is Err <==> heightmap.spec_size() != colormap.spec_size(),
            r matches Err(e) ==> e@ == "Heightmap and colormap must have same dimensions"@,
            r matches Ok(q) ==> built(q, heightmap, colormap, gen_full_layers_above_height),
    {
        let (width, height) = heightmap.size();
        let csize = colormap.size();
        if csize.0 != width || csize.1 != height {
            return Err("Heightmap and colormap must have same dimensions".to_string());
        }
        let threshold = gen_full_layers_above_height;
        if threshold > 0 && width > 0 && height > 0 {
            let levels = find_levels(heightmap, colormap, width, height, threshold);
            let mut layers: Vec<Vec<Tile>> = Vec::new();
            let base = build_layer(heightmap, colormap, width, height, LayerKind::Base(levels[0]));
            proof {
                lemma_fresh_layer_ok(layer_view(base@), heightmap, colormap, width, height, LayerKind::Base(levels@[0]));
            }
            layers.push(base);
            let mut j: usize = 1;
            while j < levels.len()
                invariant
                    1 <= j <= levels@.len(),
                    layers@.len() == j,
                    heightmap.spec_size() == (width, height),
                    colormap.spec_size() == (width, height),
                    fresh_layer(layer_view(layers@[0]@), heightmap, colormap, width, height, LayerKind::Base(levels@[0])),
                    forall|k: int|
                        1 <= k < j ==> fresh_layer(
                            layer_view(#[trigger] layers@[k]@),
                            heightmap,
                            colormap,
                            width,
                            height,
                            LayerKind::Feature(levels@[k]),
                        ),
                    forall|k: int| 0 <= k < j ==> grid_ok(layer_view(#[trigger] layers@[k]@), width as nat, height as nat),
                decreases levels.len() - j,
            {
                let layer = build_layer(heightmap, colormap, width, height, LayerKind::Feature(levels[j]));
                proof {
                    lemma_fresh_layer_ok(layer_view(layer@), heightmap, colormap, width, height, LayerKind::Feature(levels@[j as int]));
                }
                layers.push(layer);
                j += 1;
            }
            let q = QuadTree { layers, levels, width, height };
            proof {
                assert forall|k: int| 0 <= k < q.layers@.len() implies grid_ok(
                    #[trigger] q.layer_views()[k],
                    width as nat,
                    height as nat,
                ) by {
                    assert(q.layer_views()[k] == layer_view(q.layers@[k]@));
                }
                assert(q.layer_views()[0] == layer_view(q.layers@[0]@));
                assert forall|k: int| 1 <= k < q.levels@.len() implies fresh_layer(
                    #[trigger] q.layer_views()[k],
                    heightmap,
                    colormap,
                    width,
                    height,
                    LayerKind::Feature(q.levels@[k]),
                ) by {
                    assert(q.layer_views()[k] == layer_view(q.layers@[k]@));
                }
            }
            Ok(q)
        } else {
            let tiles = build_layer(heightmap, colormap, width, height, LayerKind::Plain);
            proof {
                lemma_fresh_layer_ok(layer_view(tiles@), heightmap, colormap, width, height, LayerKind::Plain);
            }
            let mut layers: Vec<Vec<Tile>> = Vec::new();
            layers.push(tiles);
            let q = QuadTree { layers, levels: Vec::new(), width, height };
            proof {
                assert(q.layer_views()[0] == layer_view(q.layers@[0]@));
            }
            Ok(q)
        }
    }
}

} // verus!
