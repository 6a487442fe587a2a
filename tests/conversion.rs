use heightmap::{gen_opt_heightmap, Brick, Collision, ColormapPNG, GenOptions, HeightmapPNG, Pixels, QuadTree};

fn options() -> GenOptions {
    GenOptions {
        size: 5,
        scale: 1,
        asset: 0,
        cull: false,
        tile: false,
        micro: false,
        stud: false,
        snap: false,
        img: false,
        glow: false,
        hdmap: false,
        lrgb: true,
        nocollide: false,
        quadtree: true,
        gen_full_layers_above_height: 0,
    }
}

/// A `width` by `height` grid, row by row: elevations in the red channel of
/// one image, colors in another.
fn maps(width: u32, height: u32, elevations: &[u8], colors: &[[u8; 4]]) -> (HeightmapPNG, ColormapPNG) {
    let h: Vec<[u8; 4]> = elevations.iter().map(|&e| [e, 0, 0, 255]).collect();
    let hm = HeightmapPNG::new(vec![Pixels::new(width, height, h).unwrap()], false).unwrap();
    let cm = ColormapPNG::new(Pixels::new(width, height, colors.to_vec()).unwrap(), true);
    (hm, cm)
}

const GREY: [u8; 4] = [100, 100, 100, 255];
const BLUE: [u8; 4] = [0, 0, 200, 255];

#[test]
fn uniform_square_merges_into_one_tile() {
    let (hm, cm) = maps(2, 2, &[5, 5, 5, 5], &[GREY; 4]);
    let mut q = QuadTree::new(&hm, &cm, 0).unwrap();
    assert_eq!(q.live_tiles(0).len(), 4);
    assert_eq!(q.quad_optimize_level(0), 3);
    assert_eq!(q.live_tiles(0), vec![((0, 0), (2, 2))]);
}

#[test]
fn uniform_square_emits_one_brick() {
    let (hm, cm) = maps(2, 2, &[5, 5, 5, 5], &[GREY; 4]);
    let bricks = gen_opt_heightmap(&hm, &cm, options(), |_| true).unwrap();
    assert_eq!(
        bricks,
        vec![Brick {
            asset_name_index: 0,
            size: (10, 10, 4),
            position: (10, 10, 5),
            collision: Collision { player: true, weapon: true, interaction: true, tool: true },
            color: GREY,
            owner_index: 1,
            material_intensity: 0,
            material_index: 0,
        }]
    );
}

#[test]
fn transparent_cell_is_culled() {
    let (hm, cm) = maps(1, 1, &[3], &[[10, 20, 30, 0]]);
    let mut o = options();
    o.cull = true;
    let bricks = gen_opt_heightmap(&hm, &cm, o, |_| true).unwrap();
    assert!(bricks.is_empty());
}

#[test]
fn transparent_cell_without_cull_is_kept() {
    let (hm, cm) = maps(1, 1, &[3], &[[10, 20, 30, 0]]);
    let bricks = gen_opt_heightmap(&hm, &cm, options(), |_| true).unwrap();
    assert_eq!(bricks.len(), 1);
}

#[test]
fn zero_threshold_gives_one_layer() {
    let (hm, cm) = maps(2, 1, &[1, 3], &[GREY, GREY]);
    let q = QuadTree::new(&hm, &cm, 0).unwrap();
    assert_eq!(q.layer_count(), 1);
    assert!(q.level_heights().is_empty());
}

#[test]
fn one_elevation_above_threshold_gives_one_feature_layer() {
    let (hm, cm) = maps(2, 1, &[1, 3], &[GREY, GREY]);
    let q = QuadTree::new(&hm, &cm, 2).unwrap();
    assert_eq!(q.layer_count(), 2);
    assert_eq!(q.level_heights(), vec![1, 3]);
}

#[test]
fn levels_come_sorted_and_keep_only_highest_below_threshold() {
    let (hm, cm) = maps(5, 1, &[9, 1, 5, 2, 7], &[GREY; 5]);
    let q = QuadTree::new(&hm, &cm, 4).unwrap();
    assert_eq!(q.level_heights(), vec![2, 5, 7, 9]);
    assert_eq!(q.layer_count(), 4);
}

#[test]
fn size_mismatch_is_an_error() {
    let (hm, _) = maps(2, 1, &[1, 3], &[GREY, GREY]);
    let (_, cm) = maps(1, 1, &[1], &[GREY]);
    assert_eq!(
        QuadTree::new(&hm, &cm, 0).err(),
        Some("Heightmap and colormap must have same dimensions".to_string())
    );
    assert!(gen_opt_heightmap(&hm, &cm, options(), |_| true).is_err());
}

#[test]
fn cancelled_run_fails() {
    let (hm, cm) = maps(2, 2, &[5, 5, 5, 5], &[GREY; 4]);
    let r = gen_opt_heightmap(&hm, &cm, options(), |p| p < 500);
    assert_eq!(r, Err("Stopped by user".to_string()));
}

#[test]
fn progress_never_goes_back() {
    let (hm, cm) = maps(4, 4, &[5; 16], &[GREY; 16]);
    let seen = std::cell::RefCell::new(Vec::new());
    let r = gen_opt_heightmap(&hm, &cm, options(), |p| {
        seen.borrow_mut().push(p);
        true
    });
    assert!(r.is_ok());
    let seen = seen.into_inner();
    assert_eq!(seen.first(), Some(&0));
    assert_eq!(seen.last(), Some(&1000));
    assert!(seen.windows(2).all(|w| w[0] <= w[1]));
}

#[test]
fn row_merges_into_one_run() {
    let (hm, cm) = maps(3, 1, &[4, 4, 4], &[GREY; 3]);
    let mut q = QuadTree::new(&hm, &cm, 0).unwrap();
    assert_eq!(q.line_optimize(5), 2);
    assert_eq!(q.live_tiles(0), vec![((0, 0), (3, 1))]);
    assert_eq!(q.line_optimize(5), 0);
}

#[test]
fn tie_prefers_vertical_run() {
    let (hm, cm) = maps(2, 2, &[4, 4, 4, 4], &[GREY; 4]);
    let mut q = QuadTree::new(&hm, &cm, 0).unwrap();
    assert_eq!(q.line_optimize(5), 2);
    assert_eq!(q.live_tiles(0), vec![((0, 0), (1, 2)), ((1, 0), (1, 2))]);
    assert_eq!(q.line_optimize(5), 1);
    assert_eq!(q.live_tiles(0), vec![((0, 0), (2, 2))]);
    assert_eq!(q.line_optimize(5), 0);
}

#[test]
fn run_stops_at_size_limit() {
    let (hm, cm) = maps(3, 1, &[4, 4, 4], &[GREY; 3]);
    let mut q = QuadTree::new(&hm, &cm, 0).unwrap();
    // two cells of 250 units fit in 500, three do not
    assert_eq!(q.line_optimize(250), 1);
    assert_eq!(q.live_tiles(0), vec![((0, 0), (2, 1)), ((2, 0), (1, 1))]);
}

#[test]
fn different_colors_do_not_merge() {
    let (hm, cm) = maps(2, 2, &[5, 5, 5, 5], &[GREY, GREY, GREY, BLUE]);
    let mut q = QuadTree::new(&hm, &cm, 0).unwrap();
    assert_eq!(q.quad_optimize_level(0), 0);
    assert_eq!(q.live_tiles(0).len(), 4);
}

#[test]
fn different_elevations_do_not_merge() {
    let (hm, cm) = maps(2, 1, &[5, 6], &[GREY, GREY]);
    let mut q = QuadTree::new(&hm, &cm, 0).unwrap();
    assert_eq!(q.line_optimize(5), 0);
}

#[test]
fn tall_tile_stacks_bricks() {
    let mut o = options();
    o.scale = 3;
    let (hm, cm) = maps(1, 1, &[199], &[GREY]);
    let bricks = gen_opt_heightmap(&hm, &cm, o, |_| true).unwrap();
    // z = 597, desired = 200 * 3 / 2 = 300: one brick of 250, one of 50
    let th: Vec<u32> = bricks.iter().map(|b| b.size.2).collect();
    let z: Vec<i32> = bricks.iter().map(|b| b.position.2).collect();
    assert_eq!(th, vec![250, 50]);
    assert_eq!(z, vec![597 - 250 + 4, 597 - 500 - 50 + 4]);
    assert!(bricks.iter().all(|b| b.size.2 <= 250));
}

#[test]
fn studded_thickness_rounds_up_to_five() {
    let mut o = options();
    o.stud = true;
    let (hm, cm) = maps(1, 1, &[12], &[GREY]);
    let bricks = gen_opt_heightmap(&hm, &cm, o, |_| true).unwrap();
    // desired = 13 / 2 = 6, rounded up to 10
    assert_eq!(bricks.len(), 1);
    assert_eq!(bricks[0].size.2, 10);
}

#[test]
fn snap_rounds_up_to_next_multiple_of_four() {
    let mut o = options();
    o.snap = true;
    let (hm, cm) = maps(1, 1, &[8], &[GREY]);
    let bricks = gen_opt_heightmap(&hm, &cm, o, |_| true).unwrap();
    // z = 8 -> 12; desired = 4 -> 8
    assert_eq!(bricks.len(), 1);
    assert_eq!(bricks[0].size.2, 8);
    assert_eq!(bricks[0].position.2, 12 - 8 + 4);
}

#[test]
fn nocollide_and_glow_flags() {
    let mut o = options();
    o.nocollide = true;
    o.glow = true;
    o.asset = 3;
    let (hm, cm) = maps(1, 1, &[2], &[GREY]);
    let bricks = gen_opt_heightmap(&hm, &cm, o, |_| true).unwrap();
    assert_eq!(bricks[0].collision, Collision { player: false, weapon: false, interaction: false, tool: true });
    assert_eq!(bricks[0].material_index, 1);
    assert_eq!(bricks[0].asset_name_index, 3);
}

#[test]
fn feature_layer_is_offset_and_corrected() {
    // elevations 1 and 3, threshold 2: base band at 1, one feature layer at 3
    let (hm, cm) = maps(2, 1, &[1, 3], &[GREY, BLUE]);
    let mut o = options();
    o.gen_full_layers_above_height = 2;
    o.quadtree = false;
    let bricks = gen_opt_heightmap(&hm, &cm, o, |_| true).unwrap();
    // base layer: both cells capped at 1 with the color of elevation 1
    // feature layer (offset 1): cell 1 at 3, cell 0 at 0; both take BLUE
    let feature: Vec<&Brick> = bricks.iter().filter(|b| b.color == BLUE).collect();
    assert_eq!(feature.len(), 2);
    let top = feature.iter().find(|b| b.position.0 == 15).unwrap();
    // z = 3, desired = max(3 - 1 + 1, 2) / 2 -> 2, thickness 2 - 4 floors at 0
    assert_eq!(top.size.2, 0);
    assert_eq!(top.position.2, 3 - 2 + 4 + 4);
}

#[test]
fn base_cells_at_lowest_level_keep_their_color() {
    // both cells at elevation 1, the only retained level: neither is clamped
    let (hm, cm) = maps(2, 1, &[1, 1], &[GREY, BLUE]);
    let mut o = options();
    o.gen_full_layers_above_height = 5;
    o.quadtree = false;
    let bricks = gen_opt_heightmap(&hm, &cm, o, |_| true).unwrap();
    let colors: Vec<[u8; 4]> = bricks.iter().map(|b| b.color).collect();
    assert_eq!(colors, vec![GREY, BLUE]);
}

#[test]
fn clamped_base_cells_take_the_level_color() {
    // elevations 1, 2, 9 with threshold 5: base level 2 (color BLUE); the
    // cell at 9 is clamped to 2 and takes BLUE, the cell at 1 keeps GREY
    let (hm, cm) = maps(3, 1, &[1, 2, 9], &[GREY, BLUE, GREY]);
    let mut o = options();
    o.gen_full_layers_above_height = 5;
    o.quadtree = false;
    let bricks = gen_opt_heightmap(&hm, &cm, o, |_| true).unwrap();
    // the base layer comes first: the cell at 1 alone, then the cells at 2
    // and (clamped) 9 merged into one BLUE run
    assert_eq!((bricks[0].color, bricks[0].position.0, bricks[0].size.0), (GREY, 5, 5));
    assert_eq!((bricks[1].color, bricks[1].position.0, bricks[1].size.0), (BLUE, 20, 10));
}
