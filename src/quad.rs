//! The tile grid of a whole conversion: a base layer and, in layered mode,
//! one feature layer per elevation above the threshold.
use crate::tile::{grid_ok, layer_view, live_count, Tile, TileView};
use vstd::prelude::*;

verus! {

/// Elevation band of one layer.
#[derive(Clone, Copy)]
pub struct Level {
    /// The elevation the band stands for.
    pub height: u32,
    /// The representative color of that elevation.
    pub color: [u8; 4],
    /// Whether that color was seen at elevation 0 (a basin such as a lake).
    pub basin: bool,
}

/// Grid of tiles, one per sample, merged in place by the two passes.
pub struct QuadTree {
    /// Base layer first, then one feature layer per level after the first.
    pub(crate) layers: Vec<Vec<Tile>>,
    /// Retained elevations in ascending order; empty unless layered.
    pub(crate) levels: Vec<Level>,
    pub(crate) width: u32,
    pub(crate) height: u32,
}

impl QuadTree {
    pub open(crate) spec fn spec_width(&self) -> nat {
        self.width as nat
    }

    pub open(crate) spec fn spec_height(&self) -> nat {
        self.height as nat
    }

    /// The layers' models.
    pub open(crate) spec fn layer_views(&self) -> Seq<Seq<TileView>> {
        Seq::new(self.layers@.len(), |i: int| layer_view(self.layers@[i]@))
    }

    pub open(crate) spec fn spec_levels(&self) -> Seq<Level> {
        self.levels@
    }

    /// Every layer is laid out over the `width` by `height` domain and
    /// partitioned by its live tiles; layered grids hold one layer per level.
    pub open(crate) spec fn wf(&self) -> bool {
        &&& self.layers@.len() >= 1
        &&& forall|i: int|
            0 <= i < self.layers@.len() ==> grid_ok(
                #[trigger] self.layer_views()[i],
                self.width as nat,
                self.height as nat,
            )
        &&& self.levels@.len() > 0 ==> self.layers@.len() == self.levels@.len()
        &&& self.levels@.len() == 0 ==> self.layers@.len() == 1
    }
}

/// `n`, or `usize::MAX` where it does not fit.
pub open spec fn saturate(n: nat) -> usize {
    if n <= usize::MAX {
        n as usize
    } else {
        usize::MAX
    }
}

/// Number of live tiles over all layers.
pub open spec fn total_live(ls: Seq<Seq<TileView>>) -> nat
    decreases ls.len(),
{
    if ls.len() == 0 {
        0
    } else {
        total_live(ls.drop_last()) + live_count(ls.last())
    }
}

} // verus!

verus! {

/// Anchor and extent of each live tile, in layer order.
pub open spec fn live_regions(ts: Seq<TileView>) -> Seq<((u32, u32), (u32, u32))>
    decreases ts.len(),
{
    if ts.len() == 0 {
        seq![]
    } else {
        let t = ts.last();
        live_regions(ts.drop_last()) + if crate::tile::is_live(t) {
            seq![((t.center.0 as u32, t.center.1 as u32), (t.size.0 as u32, t.size.1 as u32))]
        } else {
            seq![]
        }
    }
}

impl QuadTree {
    /// Number of layers: 1 unless the grid is layered.
    pub fn layer_count(&self) -> (r: usize)
        ensures
            r == self.layer_views().len(),
    {
        self.layers.len()
    }

    /// Elevations of the levels, ascending; empty unless the grid is layered.
    pub fn level_heights(&self) -> (r: Vec<u32>)
        ensures
            r@.len() == self.spec_levels().len(),
            forall|i: int| 0 <= i < r@.len() ==> r@[i] == #[trigger] self.spec_levels()[i].height,
    {
        let mut r: Vec<u32> = Vec::new();
        let mut i: usize = 0;
        while i < self.levels.len()
            invariant
                i <= self.levels@.len(),
                r@.len() == i,
                forall|j: int| 0 <= j < i ==> r@[j] == #[trigger] self.levels@[j].height,
            decreases self.levels.len() - i,
        {
            r.push(self.levels[i].height);
            i += 1;
        }
        r
    }

    /// Anchor and extent of each live tile of layer `layer`, in layer order.
    pub fn live_tiles(&self, layer: usize) -> (r: Vec<((u32, u32), (u32, u32))>)
        requires
            layer < self.layer_views().len(),
        ensures
            r@ == live_regions(self.layer_views()[layer as int]),
    {
        let tiles = &self.layers[layer];
        let mut r: Vec<((u32, u32), (u32, u32))> = Vec::new();
        let mut i: usize = 0;
        while i < tiles.len()
            invariant
                i <= tiles@.len(),
                tiles == self.layers@[layer as int],
                layer < self.layers@.len(),
                r@ == live_regions(layer_view(tiles@.subrange(0, i as int))),
            decreases tiles.len() - i,
        {
            proof {
                let pre = layer_view(tiles@.subrange(0, i + 1));
                assert(pre.drop_last() =~= layer_view(tiles@.subrange(0, i as int)));
                assert(pre.last() == tiles@[i as int]@);
            }
            if tiles[i].parent.is_none() {
                r.push((tiles[i].center, tiles[i].size));
            }
            proof {
                let pre = layer_view(tiles@.subrange(0, i + 1));
                assert(r@ =~= live_regions(pre));
            }
            i += 1;
        }
        proof {
            assert(tiles@.subrange(0, i as int) =~= tiles@);
            assert(self.layer_views()[layer as int] == layer_view(tiles@));
        }
        r
    }
}

} // verus!
