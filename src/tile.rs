//! Tiles of a grid layer, their mathematical model, and the partition invariant
//! that every merge keeps.
use vstd::prelude::*;

verus! {

/// One cell, or a merged rectangle of cells, of a grid layer.
pub struct Tile {
    /// Position of this tile in its layer (`y + x * height`).
    pub index: usize,
    /// Top-left cell of the tile, the anchor of merges.
    pub center: (u32, u32),
    /// Width and depth in cells; `(1, 1)` until the tile absorbs others.
    pub size: (u32, u32),
    /// RGBA color.
    pub color: [u8; 4],
    /// Elevation sample.
    pub height: u32,
    /// Distinct elevations of the cells next to this region when it was built.
    pub neighbors: Vec<u32>,
    /// The tile that absorbed this one; `None` while the tile is live.
    pub parent: Option<usize>,
}

/// The mathematical value of a tile.
pub struct TileView {
    pub index: nat,
    pub center: (nat, nat),
    pub size: (nat, nat),
    pub color: [u8; 4],
    pub height: u32,
    pub neighbors: Set<u32>,
    pub parent: Option<nat>,
}

pub open spec fn value_set(v: Seq<u32>) -> Set<u32> {
    Set::new(|e: u32| v.contains(e))
}

impl Tile {
    pub open spec fn view(&self) -> TileView {
        TileView {
            index: self.index as nat,
            center: (self.center.0 as nat, self.center.1 as nat),
            size: (self.size.0 as nat, self.size.1 as nat),
            color: self.color,
            height: self.height,
            neighbors: value_set(self.neighbors@),
            parent: match self.parent {
                Some(p) => Some(p as nat),
                None => None,
            },
        }
    }
}

/// The model of a whole layer.
pub open spec fn layer_view(ts: Seq<Tile>) -> Seq<TileView> {
    Seq::new(ts.len(), |i: int| ts[i].view())
}

pub open spec fn is_live(t: TileView) -> bool {
    t.parent is None
}

/// Whether the tile's region contains cell `(cx, cy)`.
pub open spec fn covers(t: TileView, cx: int, cy: int) -> bool {
    t.center.0 <= cx < t.center.0 + t.size.0 && t.center.1 <= cy < t.center.1 + t.size.1
}

/// Whether some live tile contains cell `(cx, cy)`.
pub open spec fn covered(ts: Seq<TileView>, cx: int, cy: int) -> bool {
    exists|i: int| 0 <= i < ts.len() && is_live(ts[i]) && #[trigger] covers(ts[i], cx, cy)
}

/// Position of cell `(x, y)` in a column-major layer of depth `h`.
pub open spec fn cell_index(x: int, y: int, h: int) -> int {
    x * h + y
}

/// Tile `i` is anchored at the cell whose position is `i`.
pub open spec fn layout_ok(ts: Seq<TileView>, w: nat, h: nat) -> bool {
    &&& ts.len() == w * h
    &&& forall|i: int|
        0 <= i < ts.len() ==> {
            &&& (#[trigger] ts[i]).index == i
            &&& ts[i].center.0 < w
            &&& ts[i].center.1 < h
            &&& cell_index(ts[i].center.0 as int, ts[i].center.1 as int, h as int) == i
        }
}

/// Live tiles are non-empty rectangles inside the domain.
pub open spec fn live_in_domain(ts: Seq<TileView>, w: nat, h: nat) -> bool {
    forall|i: int|
        0 <= i < ts.len() && is_live(#[trigger] ts[i]) ==> {
            &&& ts[i].size.0 >= 1
            &&& ts[i].size.1 >= 1
            &&& ts[i].center.0 + ts[i].size.0 <= w
            &&& ts[i].center.1 + ts[i].size.1 <= h
        }
}

pub open spec fn no_gaps(ts: Seq<TileView>, w: nat, h: nat) -> bool {
    forall|cx: int, cy: int| 0 <= cx < w && 0 <= cy < h ==> #[trigger] covered(ts, cx, cy)
}

pub open spec fn no_overlap(ts: Seq<TileView>) -> bool {
    forall|i: int, j: int, cx: int, cy: int|
        0 <= i < ts.len() && 0 <= j < ts.len() && is_live(ts[i]) && is_live(ts[j]) && #[trigger] covers(
            ts[i],
            cx,
            cy,
        ) && #[trigger] covers(ts[j], cx, cy) ==> i == j
}

/// The live tiles' regions partition the `w` by `h` domain.
pub open spec fn partitioned(ts: Seq<TileView>, w: nat, h: nat) -> bool {
    live_in_domain(ts, w, h) && no_gaps(ts, w, h) && no_overlap(ts)
}

/// Well-formed layer: laid out by position and partitioned by its live tiles.
pub open spec fn grid_ok(ts: Seq<TileView>, w: nat, h: nat) -> bool {
    layout_ok(ts, w, h) && partitioned(ts, w, h)
}

/// Number of live tiles.
pub open spec fn live_count(ts: Seq<TileView>) -> nat
    decreases ts.len(),
{
    if ts.len() == 0 {
        0
    } else {
        live_count(ts.drop_last()) + if is_live(ts.last()) {
            1nat
        } else {
            0nat
        }
    }
}

pub proof fn lemma_live_count_update(ts: Seq<TileView>, i: int, t: TileView)
    requires
        0 <= i < ts.len(),
    ensures
        live_count(ts.update(i, t)) + (if is_live(ts[i]) {
            1int
        } else {
            0int
        }) == live_count(ts) + (if is_live(t) {
            1int
        } else {
            0int
        }),
    decreases ts.len(),
{
    let u = ts.update(i, t);
    if i == ts.len() - 1 {
        assert(u.drop_last() =~= ts.drop_last());
    } else {
        assert(u.drop_last() =~= ts.drop_last().update(i, t));
        lemma_live_count_update(ts.drop_last(), i, t);
    }
}

pub proof fn lemma_live_count_bound(ts: Seq<TileView>)
    ensures
        live_count(ts) <= ts.len(),
    decreases ts.len(),
{
    if ts.len() > 0 {
        lemma_live_count_bound(ts.drop_last());
    }
}

/// Cells of distinct positions differ.
pub proof fn lemma_cell_index_unique(a: int, b: int, c: int, d: int, h: int)
    requires
        0 <= b < h,
        0 <= d < h,
        0 <= a,
        0 <= c,
        cell_index(a, b, h) == cell_index(c, d, h),
    ensures
        a == c,
        b == d,
{
    if a < c {
        assert(a * h + h <= c * h) by (nonlinear_arith)
            requires
                a < c,
                0 <= h,
        ;
    } else if c < a {
        assert(c * h + h <= a * h) by (nonlinear_arith)
            requires
                c < a,
                0 <= h,
        ;
    }
}

pub proof fn lemma_cell_index_bound(x: int, y: int, w: int, h: int)
    requires
        0 <= x < w,
        0 <= y < h,
    ensures
        0 <= cell_index(x, y, h) < w * h,
        x * h + h <= w * h,
{
    assert(x * h + h <= w * h) by (nonlinear_arith)
        requires
            x < w,
            0 <= h,
    ;
    assert(0 <= x * h) by (nonlinear_arith)
        requires
            0 <= x,
            0 <= h,
    ;
}

/// In a laid-out layer, the tile at the position of cell `(x, y)` is anchored there.
pub proof fn lemma_anchor(ts: Seq<TileView>, w: nat, h: nat, x: int, y: int)
    requires
        layout_ok(ts, w, h),
        0 <= x < w,
        0 <= y < h,
    ensures
        0 <= cell_index(x, y, h as int) < ts.len(),
        ts[cell_index(x, y, h as int)].center == (x as nat, y as nat),
        ts[cell_index(x, y, h as int)].index == cell_index(x, y, h as int),
{
    lemma_cell_index_bound(x, y, w as int, h as int);
    let i = cell_index(x, y, h as int);
    let t = ts[i];
    lemma_cell_index_unique(t.center.0 as int, t.center.1 as int, x, y, h as int);
}

/// Absorbing live tiles into a live tile `a` keeps the partition, provided
/// the new region of `a` is exactly the union of the old regions.
pub proof fn lemma_absorb_keeps_partition(
    ts: Seq<TileView>,
    ts2: Seq<TileView>,
    w: nat,
    h: nat,
    a: int,
    gone: Set<int>,
)
    requires
        grid_ok(ts, w, h),
        ts2.len() == ts.len(),
        0 <= a < ts.len(),
        is_live(ts[a]),
        is_live(ts2[a]),
        !gone.contains(a),
        forall|b: int| #[trigger]
            gone.contains(b) ==> 0 <= b < ts.len() && is_live(ts[b]) && !is_live(ts2[b]),
        forall|j: int|
            0 <= j < ts.len() && j != a && !gone.contains(j) ==> #[trigger] ts2[j] == ts[j],
        forall|j: int|
            0 <= j < ts.len() ==> (#[trigger] ts2[j]).index == ts[j].index && ts2[j].center
                == ts[j].center,
        ts2[a].size.0 >= 1,
        ts2[a].size.1 >= 1,
        ts2[a].center.0 + ts2[a].size.0 <= w,
        ts2[a].center.1 + ts2[a].size.1 <= h,
        forall|cx: int, cy: int|
            #[trigger] covers(ts2[a], cx, cy) <==> (covers(ts[a], cx, cy) || exists|b: int|
                gone.contains(b) && #[trigger] covers(ts[b], cx, cy)),
    ensures
        grid_ok(ts2, w, h),
        live_count(ts2) + gone.len() == live_count(ts) || !gone.finite(),
{
    assert(layout_ok(ts2, w, h)) by {
        assert forall|i: int| 0 <= i < ts2.len() implies {
            &&& (#[trigger] ts2[i]).index == i
            &&& ts2[i].center.0 < w
            &&& ts2[i].center.1 < h
            &&& cell_index(ts2[i].center.0 as int, ts2[i].center.1 as int, h as int) == i
        } by {
            assert(ts2[i].index == ts[i].index);
        }
    }
    assert(live_in_domain(ts2, w, h)) by {
        assert forall|i: int| 0 <= i < ts2.len() && is_live(#[trigger] ts2[i]) implies {
            &&& ts2[i].size.0 >= 1
            &&& ts2[i].size.1 >= 1
            &&& ts2[i].center.0 + ts2[i].size.0 <= w
            &&& ts2[i].center.1 + ts2[i].size.1 <= h
        } by {
            if i != a {
                assert(!gone.contains(i));
                assert(ts2[i] == ts[i]);
            }
        }
    }
    assert(no_gaps(ts2, w, h)) by {
        assert forall|cx: int, cy: int| 0 <= cx < w && 0 <= cy < h implies #[trigger] covered(
            ts2,
            cx,
            cy,
        ) by {
            assert(covered(ts, cx, cy));
            let k = choose|k: int| 0 <= k < ts.len() && is_live(ts[k]) && #[trigger] covers(ts[k], cx, cy);
            if k == a || gone.contains(k) {
                assert(covers(ts2[a], cx, cy));
            } else {
                assert(ts2[k] == ts[k]);
                assert(covers(ts2[k], cx, cy));
            }
        }
    }
    assert(no_overlap(ts2)) by {
        assert forall|i: int, j: int, cx: int, cy: int|
            0 <= i < ts2.len() && 0 <= j < ts2.len() && is_live(ts2[i]) && is_live(ts2[j])
                && #[trigger] covers(ts2[i], cx, cy) && #[trigger] covers(
                ts2[j],
                cx,
                cy,
            ) implies i == j by {
            // the live tile of ts that held the cell before
            let pick = |k: int|
                if k == a {
                    if covers(ts[a], cx, cy) {
                        a
                    } else {
                        choose|b: int| gone.contains(b) && #[trigger] covers(ts[b], cx, cy)
                    }
                } else {
                    k
                };
            if i != a {
                assert(!gone.contains(i));
                assert(ts2[i] == ts[i]);
            }
            if j != a {
                assert(!gone.contains(j));
                assert(ts2[j] == ts[j]);
            }
            let pi = pick(i);
            let pj = pick(j);
            assert(covers(ts[pi], cx, cy));
            assert(covers(ts[pj], cx, cy));
            assert(pi == pj);
        }
    }
    if gone.finite() {
        lemma_live_count_remove(ts, ts2, a, gone);
    }
}

/// Live count after the tiles of `gone` stop being live, all else staying live or not.
proof fn lemma_live_count_remove(ts: Seq<TileView>, ts2: Seq<TileView>, a: int, gone: Set<int>)
    requires
        ts2.len() == ts.len(),
        0 <= a < ts.len(),
        is_live(ts[a]),
        is_live(ts2[a]),
        gone.finite(),
        forall|b: int| #[trigger]
            gone.contains(b) ==> 0 <= b < ts.len() && is_live(ts[b]) && !is_live(ts2[b]),
        forall|j: int|
            0 <= j < ts.len() && j != a && !gone.contains(j) ==> #[trigger] ts2[j] == ts[j],
    ensures
        live_count(ts2) + gone.len() == live_count(ts),
    decreases gone.len(),
{
    if gone.len() == 0 {
        assert(gone =~= Set::empty());
        let mid = ts.update(a, ts2[a]);
        lemma_live_count_update(ts, a, ts2[a]);
        assert(mid =~= ts2);
    } else {
        let b = gone.choose();
        assert(gone.contains(b));
        let rest = gone.remove(b);
        let mid = ts2.update(b, ts[b]);
        lemma_live_count_update(ts2, b, ts[b]);
        assert forall|j: int|
            0 <= j < ts.len() && j != a && !rest.contains(j) implies #[trigger] mid[j] == ts[j] by {
            if j != b {
                assert(!gone.contains(j));
            }
        }
        lemma_live_count_remove(ts, mid, a, rest);
    }
}

} // verus!

verus! {

/// Equal extent, color and elevation, neither tile absorbed.
pub open spec fn similar_quad(a: TileView, b: TileView) -> bool {
    a.size == b.size && a.color == b.color && a.height == b.height && is_live(a) && is_live(b)
}

/// Aligned on one axis with equal extent across it, equal color and
/// elevation, neither tile absorbed.
pub open spec fn similar_line(a: TileView, b: TileView) -> bool {
    &&& (a.center.0 == b.center.0 && a.size.0 == b.size.0) || (a.center.1 == b.center.1 && a.size.1
        == b.size.1)
    &&& a.color == b.color
    &&& a.height == b.height
    &&& is_live(a)
    &&& is_live(b)
}

/// Whether two colors are equal, channel by channel.
pub fn same_color(a: &[u8; 4], b: &[u8; 4]) -> (r: bool)
    ensures
        r == (*a == *b),
{
    let r = a[0] == b[0] && a[1] == b[1] && a[2] == b[2] && a[3] == b[3];
    proof {
        if r {
            assert(a@ =~= b@);
            assert(*a =~= *b);
        }
    }
    r
}

/// Whether `v` holds `e`.
fn holds(v: &Vec<u32>, e: u32) -> (r: bool)
    ensures
        r == v@.contains(e),
{
    let mut i: usize = 0;
    while i < v.len()
        invariant
            i <= v.len(),
            forall|j: int| 0 <= j < i ==> v@[j] != e,
        decreases v.len() - i,
    {
        if v[i] == e {
            return true;
        }
        i += 1;
    }
    false
}

proof fn lemma_value_set_push(v: Seq<u32>, e: u32)
    ensures
        value_set(v.push(e)) == value_set(v).insert(e),
{
    assert forall|x: u32|
        #[trigger] value_set(v.push(e)).contains(x) == value_set(v).insert(e).contains(x) by {
        if v.contains(x) {
            let j = choose|j: int| 0 <= j < v.len() && v[j] == x;
            assert(v.push(e)[j] == x);
        }
        if x == e {
            assert(v.push(e)[v.len() as int] == e);
        }
        if v.push(e).contains(x) {
            let j = choose|j: int| 0 <= j < v.push(e).len() && v.push(e)[j] == x;
            if j < v.len() {
                assert(v[j] == x);
            }
        }
    }
    assert(value_set(v.push(e)) =~= value_set(v).insert(e));
}

/// Adds to `dst` each value of `src` that it lacks.
pub fn add_heights(dst: &mut Vec<u32>, src: &Vec<u32>)
    ensures
        value_set(final(dst)@) == value_set(old(dst)@).union(value_set(src@)),
{
    let mut i: usize = 0;
    while i < src.len()
        invariant
            i <= src.len(),
            value_set(dst@) == value_set(old(dst)@).union(value_set(src@.subrange(0, i as int))),
        decreases src.len() - i,
    {
        let e = src[i];
        let ghost before = dst@;
        if !holds(dst, e) {
            dst.push(e);
        }
        proof {
            lemma_value_set_push(before, e);
            assert(value_set(dst@) =~= value_set(before).insert(e));
            assert(src@.subrange(0, i + 1) =~= src@.subrange(0, i as int).push(e));
            lemma_value_set_push(src@.subrange(0, i as int), e);
        }
        i += 1;
    }
    assert(src@.subrange(0, i as int) =~= src@);
    assert(value_set(final(dst)@) =~= value_set(old(dst)@).union(value_set(src@)));
}

impl Tile {
    /// Whether `other` can join this tile in a 2x2 merge.
    pub fn similar_quad(&self, other: &Self) -> (r: bool)
        ensures
            r == similar_quad(self@, other@),
    {
        self.size.0 == other.size.0 && self.size.1 == other.size.1 && same_color(&self.color, &other.color) && self.height
            == other.height && self.parent.is_none() && other.parent.is_none()
    }

    /// Whether `other` can join a run that starts at this tile.
    pub fn similar_line(&self, other: &Self) -> (r: bool)
        ensures
            r == similar_line(self@, other@),
    {
        let is_vertical = self.center.0 == other.center.0;
        let is_horizontal = self.center.1 == other.center.1;
        (is_vertical && self.size.0 == other.size.0 || is_horizontal && self.size.1 == other.size.1)
            && same_color(&self.color, &other.color) && self.height == other.height
            && self.parent.is_none() && other.parent.is_none()
    }
}

} // verus!

verus! {

/// Every cell that a live tile of `ts` covers had, in the unmerged layer
/// `init`, the tile's color and elevation.
pub open spec fn uniform(ts: Seq<TileView>, init: Seq<TileView>, h: nat) -> bool {
    forall|i: int, cx: int, cy: int|
        0 <= i < ts.len() && is_live(ts[i]) && #[trigger] covers(ts[i], cx, cy) ==> {
            &&& init[cell_index(cx, cy, h as int)].color == ts[i].color
            &&& init[cell_index(cx, cy, h as int)].height == ts[i].height
        }
}

/// An unmerged layer, whose tiles are single cells, is uniform with itself.
pub proof fn lemma_single_cells_uniform(ts: Seq<TileView>, w: nat, h: nat)
    requires
        layout_ok(ts, w, h),
        forall|i: int| 0 <= i < ts.len() ==> (#[trigger] ts[i]).size == (1nat, 1nat),
    ensures
        uniform(ts, ts, h),
{
    assert forall|i: int, cx: int, cy: int|
        0 <= i < ts.len() && is_live(ts[i]) && #[trigger] covers(ts[i], cx, cy) implies {
        &&& ts[cell_index(cx, cy, h as int)].color == ts[i].color
        &&& ts[cell_index(cx, cy, h as int)].height == ts[i].height
    } by {
        assert(ts[i].size == (1nat, 1nat));
        assert(ts[i].center == (cx as nat, cy as nat));
    }
}

/// Absorbing tiles of the same color and elevation keeps a layer uniform.
pub proof fn lemma_absorb_keeps_uniform(
    ts: Seq<TileView>,
    ts2: Seq<TileView>,
    init: Seq<TileView>,
    h: nat,
    a: int,
    gone: Set<int>,
)
    requires
        uniform(ts, init, h),
        ts2.len() == ts.len(),
        0 <= a < ts.len(),
        is_live(ts[a]),
        !gone.contains(a),
        forall|b: int| #[trigger]
            gone.contains(b) ==> 0 <= b < ts.len() && is_live(ts[b]) && !is_live(ts2[b])
                && ts[b].color == ts[a].color && ts[b].height == ts[a].height,
        forall|j: int|
            0 <= j < ts.len() && j != a && !gone.contains(j) ==> #[trigger] ts2[j] == ts[j],
        ts2[a].color == ts[a].color,
        ts2[a].height == ts[a].height,
        forall|cx: int, cy: int|
            #[trigger] covers(ts2[a], cx, cy) <==> (covers(ts[a], cx, cy) || exists|b: int|
                gone.contains(b) && #[trigger] covers(ts[b], cx, cy)),
    ensures
        uniform(ts2, init, h),
{
    assert forall|i: int, cx: int, cy: int|
        0 <= i < ts2.len() && is_live(ts2[i]) && #[trigger] covers(ts2[i], cx, cy) implies {
        &&& init[cell_index(cx, cy, h as int)].color == ts2[i].color
        &&& init[cell_index(cx, cy, h as int)].height == ts2[i].height
    } by {
        if i == a {
            if !covers(ts[a], cx, cy) {
                let b = choose|b: int| gone.contains(b) && #[trigger] covers(ts[b], cx, cy);
                assert(covers(ts[b], cx, cy));
            }
        } else {
            assert(!gone.contains(i));
            assert(ts2[i] == ts[i]);
        }
    }
}

} // verus!

verus! {

/// An extent of one cell, or one whose length in units stays within 500.
pub open spec fn fits_limit(n: nat, unit: nat) -> bool {
    n == 1 || n * unit <= 500
}

/// Every live tile's width and depth fit the limit.
pub open spec fn bounded(ts: Seq<TileView>, unit: nat) -> bool {
    forall|i: int|
        0 <= i < ts.len() && is_live(#[trigger] ts[i]) ==> fits_limit(ts[i].size.0, unit)
            && fits_limit(ts[i].size.1, unit)
}

} // verus!

verus! {

/// Every absorbed tile names as its parent a tile of the layer with its own
/// color and elevation.
pub open spec fn parents_agree(ts: Seq<TileView>) -> bool {
    forall|i: int|
        0 <= i < ts.len() && (#[trigger] ts[i]).parent is Some ==> {
            let p = ts[i].parent->Some_0 as int;
            &&& 0 <= p < ts.len()
            &&& ts[p].color == ts[i].color
            &&& ts[p].height == ts[i].height
        }
}

/// Tile `a` absorbing tiles of its color and elevation, which name it as
/// their parent, keeps parents in agreement.
pub proof fn lemma_absorb_keeps_parents(ts: Seq<TileView>, ts2: Seq<TileView>, a: int, gone: Set<int>)
    requires
        parents_agree(ts),
        ts2.len() == ts.len(),
        0 <= a < ts.len(),
        forall|j: int|
            0 <= j < ts.len() ==> (#[trigger] ts2[j]).color == ts[j].color && ts2[j].height
                == ts[j].height,
        forall|j: int| 0 <= j < ts.len() && !gone.contains(j) ==> (#[trigger] ts2[j]).parent == ts[j].parent,
        forall|b: int| #[trigger]
            gone.contains(b) ==> 0 <= b < ts.len() && ts2[b].parent == Some(a as nat) && ts[b].color
                == ts[a].color && ts[b].height == ts[a].height,
    ensures
        parents_agree(ts2),
{
    assert forall|i: int| 0 <= i < ts2.len() && (#[trigger] ts2[i]).parent is Some implies {
        let p = ts2[i].parent->Some_0 as int;
        &&& 0 <= p < ts2.len()
        &&& ts2[p].color == ts2[i].color
        &&& ts2[p].height == ts2[i].height
    } by {
        if gone.contains(i) {
            assert(ts2[a].color == ts[a].color);
        } else {
            assert(ts2[i].parent == ts[i].parent);
            assert(ts[i].parent is Some);
            let p = ts[i].parent->Some_0 as int;
            assert(ts2[p].color == ts[p].color);
        }
    }
}

} // verus!
