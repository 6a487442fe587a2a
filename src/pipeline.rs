//! The whole conversion: build, 2x2 merges at growing scales, run merges to
//! a fixpoint, then emission.
use crate::emit::{tree_bricks, Brick};
use crate::grid::built;
use crate::map::{Colormap, Heightmap};
use crate::merge::{lemma_line_removed_zero, line_layers, line_removed, quad_layers};
use crate::quad::{total_live, QuadTree};
use crate::tile::{grid_ok, TileView};
use crate::util::GenOptions;
use vstd::arithmetic::power2::pow2;
use vstd::prelude::*;

verus! {

/// The 2x2 merge passes from `level` on: a pass at cells of extent
/// `2^level` while `2^(level + 1) * unit < 500`, stopping after a pass that
/// merges nothing.
pub open spec fn quad_escalate(ls: Seq<Seq<TileView>>, w: nat, h: nat, unit: nat, level: nat) -> Seq<
    Seq<TileView>,
>
    decreases 31 - level,
{
    if level < 31 && pow2(level + 1) * unit < 500 {
        let next = quad_layers(ls, w, h, pow2(level));
        if total_live(next) == total_live(ls) {
            next
        } else {
            quad_escalate(next, w, h, unit, level + 1)
        }
    } else {
        ls
    }
}

/// `n` run-merge passes.
pub open spec fn line_iter(ls: Seq<Seq<TileView>>, w: nat, h: nat, sc: nat, n: nat) -> Seq<
    Seq<TileView>,
>
    decreases n,
{
    if n == 0 {
        ls
    } else {
        line_layers(line_iter(ls, w, h, sc, (n - 1) as nat), w, h, sc)
    }
}

/// After `n` passes the run merges stop: each earlier pass merged something,
/// and a pass on the result merges nothing.
pub open spec fn line_settled(ls: Seq<Seq<TileView>>, w: nat, h: nat, sc: nat, n: nat) -> bool {
    &&& line_removed(line_iter(ls, w, h, sc, n), w, h, sc) == 0
    &&& forall|k: nat| k < n ==> line_removed(#[trigger] line_iter(ls, w, h, sc, k), w, h, sc) > 0
}

/// The layers after the merge passes that `options` asks for.
pub open spec fn quad_stage(ls: Seq<Seq<TileView>>, w: nat, h: nat, o: GenOptions) -> Seq<Seq<TileView>> {
    if o.quadtree {
        quad_escalate(ls, w, h, o.size as nat, 0)
    } else {
        ls
    }
}

/// `b` is what the conversion emits from the built grid `q`.
pub open spec fn converted(q: QuadTree, o: GenOptions, b: Seq<Brick>) -> bool {
    let w = q.spec_width();
    let h = q.spec_height();
    let ls = quad_stage(q.layer_views(), w, h, o);
    exists|n: nat|
        line_settled(ls, w, h, o.size as nat, n) && b == tree_bricks(
            #[trigger] line_iter(ls, w, h, o.size as nat, n),
            q.spec_levels(),
            o,
        )
}

/// The progress callback returns true whenever it returns.
pub open spec fn never_cancels<F: Fn(u32) -> bool>(f: F) -> bool {
    forall|p: u32, b: bool| #[trigger] f.ensures((p,), b) ==> b
}

/// `b` is what the conversion of these samples with options `o` emits.
pub open spec fn produced<H: Heightmap + ?Sized, C: Colormap + ?Sized>(
    hm: &H,
    cm: &C,
    o: GenOptions,
    b: Seq<Brick>,
) -> bool {
    exists|q: QuadTree| built(q, hm, cm, o.gen_full_layers_above_height) && #[trigger] converted(q, o, b)
}

/// Runs the conversion: builds the grid, runs the 2x2 merges at growing
/// scales when `options.quadtree` is set (at most 31 of them), runs
/// run-merge passes until one merges nothing, and emits the bricks.
/// Progress goes to `progress_f` in thousandths, never decreasing, at fixed
/// checkpoints (0, 200, `200 + 50 * level` before each 2x2 level, held at
/// 650, 700 after them, after each
/// run-merge pass, 950, 1000); the run stops with an error as soon as
/// `progress_f` returns false.
pub fn gen_opt_heightmap<H: Heightmap + ?Sized, C: Colormap + ?Sized, F: Fn(u32) -> bool>(
    heightmap: &H,
    colormap: &C,
    options: GenOptions,
    progress_f: F,
) -> (r: Result<Vec<Brick>, String>)
    requires
        forall|p: u32| progress_f.requires((p,)),
    ensures
        heightmap.spec_size() != colormap.spec_size() ==> r is Err,
        never_cancels(progress_f) ==> (r is Ok <==> heightmap.spec_size() == colormap.spec_size()),
        never_cancels(progress_f) && r is Err ==> r->Err_0@
            == "Heightmap and colormap must have same dimensions"@,
        r matches Err(e) ==> e@ == "Stopped by user"@ || e@
            == "Heightmap and colormap must have same dimensions"@,
        r is Ok ==> produced(heightmap, colormap, options, r->Ok_0@),
{
    if !progress_f(0) {
        return Err("Stopped by user".to_string());
    }
    let mut quad = match QuadTree::new(heightmap, colormap, options.gen_full_layers_above_height) {
        Ok(q) => q,
        Err(e) => {
            return Err(e);
        },
    };
    let ghost q0 = quad;
    assert(built(q0, heightmap, colormap, options.gen_full_layers_above_height));
    let ghost w = quad.spec_width();
    let ghost h = quad.spec_height();
    let ghost unit = options.size as nat;
    if !progress_f(200) {
        return Err("Stopped by user".to_string());
    }
    let (prog_offset, prog_scale): (u32, u32) = if options.quadtree {
        let mut level: u32 = 0;
        let mut going = true;
        while going && level < 31 && level_fits(level, options.size)
            invariant
                quad.wf(),
                quad.spec_width() == w,
                quad.spec_height() == h,
                quad.spec_levels() == q0.spec_levels(),
                built(q0, heightmap, colormap, options.gen_full_layers_above_height),
                q0.spec_width() == w,
                q0.spec_height() == h,
                level <= 31,
                forall|p: u32| progress_f.requires((p,)),
                going ==> quad_escalate(quad.layer_views(), w, h, unit, level as nat) == quad_escalate(
                    q0.layer_views(),
                    w,
                    h,
                    unit,
                    0,
                ),
                !going ==> quad.layer_views() == quad_escalate(q0.layer_views(), w, h, unit, 0),
                unit == options.size,
            decreases 31 - level + if going {
                1int
            } else {
                0int
            },
        {
            let reached: u32 = if level < 9 {
                200 + 50 * level
            } else {
                650
            };
            if !progress_f(reached) {
                return Err("Stopped by user".to_string());
            }
            let count = quad.quad_optimize_level(level);
            if count == 0 {
                going = false;
            } else {
                level = level + 1;
            }
        }
        proof {
            if going {
                // the escalation ends where the loop did
                assert(quad_escalate(quad.layer_views(), w, h, unit, level as nat) == quad.layer_views());
            }
        }
        if !progress_f(700) {
            return Err("Stopped by user".to_string());
        }
        (700, 250)
    } else {
        (200, 750)
    };
    let ghost ls1 = quad.layer_views();
    proof {
        assert(ls1 == quad_stage(q0.layer_views(), w, h, options));
    }
    let ghost mut n: nat = 0;
    let mut i: u32 = 0;
    loop
        invariant
            quad.wf(),
            quad.spec_width() == w,
            quad.spec_height() == h,
            quad.spec_levels() == q0.spec_levels(),
            built(q0, heightmap, colormap, options.gen_full_layers_above_height),
            unit == options.size,
            forall|p: u32| progress_f.requires((p,)),
            prog_offset + prog_scale <= 950,
            prog_scale <= 750,
            ls1 == quad_stage(q0.layer_views(), w, h, options),
            q0.spec_width() == w,
            q0.spec_height() == h,
            i <= 5,
            quad.layer_views() == line_iter(ls1, w, h, unit, n),
            forall|k: nat| k < n ==> line_removed(#[trigger] line_iter(ls1, w, h, unit, k), w, h, unit) > 0,
        ensures
            quad.layer_views() == line_iter(ls1, w, h, unit, n),
            line_settled(ls1, w, h, unit, n),
            quad.spec_levels() == q0.spec_levels(),
        decreases total_live(quad.layer_views()),
    {
        if i < 5 {
            i = i + 1;
        }
        let ghost before = quad.layer_views();
        let count = quad.line_optimize(options.size);
        proof {
            assert(prog_scale * i <= 750 * 5) by (nonlinear_arith)
                requires
                    prog_scale <= 750,
                    i <= 5,
            ;
        }
        let reached: u32 = prog_offset + prog_scale * i / 5;
        if !progress_f(reached) {
            return Err("Stopped by user".to_string());
        }
        if count == 0 {
            proof {
                assert(line_removed(before, w, h, unit) == 0);
                assert forall|j: int| 0 <= j < before.len() implies grid_ok(#[trigger] before[j], w, h) by {}
                lemma_line_removed_zero(before, w, h, unit);
                assert(quad.layer_views() == before);
                assert(line_settled(ls1, w, h, unit, n));
            }
            break;
        }
        proof {
            assert(line_iter(ls1, w, h, unit, n + 1) == line_layers(before, w, h, unit));
            n = n + 1;
        }
    }
    if !progress_f(950) {
        return Err("Stopped by user".to_string());
    }
    let bricks = quad.into_bricks(options);
    proof {
        assert(converted(q0, options, bricks@));
    }
    if !progress_f(1000) {
        return Err("Stopped by user".to_string());
    }
    assert(produced(heightmap, colormap, options, bricks@));
    Ok(bricks)
}

/// Whether cells of extent `2^(level + 1)` stay under 500 units.
fn level_fits(level: u32, unit: u32) -> (r: bool)
    requires
        level < 31,
    ensures
        r == (pow2((level + 1) as nat) * unit < 500),
{
    proof {
        vstd::arithmetic::power2::lemma_pow2_pos((level + 1) as nat);
        vstd::arithmetic::power2::lemma2_to64();
        if level + 1 < 31 {
            vstd::arithmetic::power2::lemma_pow2_strictly_increases((level + 1) as nat, 31);
        }
        assert(pow2((level + 1) as nat) * unit <= 0x8000_0000 * 0xffff_ffff) by (nonlinear_arith)
            requires
                pow2((level + 1) as nat) <= 0x8000_0000,
                unit <= 0xffff_ffff,
        ;
        vstd::bits::lemma_u64_shl_is_mul(1, (level + 1) as u64);
    }
    let p: u64 = 1u64 << (level + 1);
    p * (unit as u64) < 500
}

} // verus!
