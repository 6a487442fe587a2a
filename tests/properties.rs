use heightmap::{gen_opt_heightmap, ColormapPNG, GenOptions, HeightmapPNG, Pixels, QuadTree};

fn options(size: u32) -> GenOptions {
    GenOptions {
        size,
        scale: 1,
        asset: 0,
        cull: false,
        tile: false,
        micro: false,
        stud: false,
        snap: false,
        img: false,
        glow: false,
        hdmap: false,
        lrgb: true,
        nocollide: false,
        quadtree: true,
        gen_full_layers_above_height: 0,
    }
}

fn maps(width: u32, height: u32, elevations: &[u8], colors: &[[u8; 4]]) -> (HeightmapPNG, ColormapPNG) {
    let h: Vec<[u8; 4]> = elevations.iter().map(|&e| [e, 0, 0, 255]).collect();
    let hm = HeightmapPNG::new(vec![Pixels::new(width, height, h).unwrap()], false).unwrap();
    let cm = ColormapPNG::new(Pixels::new(width, height, colors.to_vec()).unwrap(), true);
    (hm, cm)
}

/// A 6 by 5 field with a raised block, a ridge and two colors.
fn mixed() -> (u32, u32, Vec<u8>, Vec<[u8; 4]>) {
    let (w, h) = (6u32, 5u32);
    let mut e = Vec::new();
    let mut c = Vec::new();
    for y in 0..h {
        for x in 0..w {
            e.push(if x < 4 && y < 4 { 7 } else if x == 5 { 2 } else { 1 });
            c.push(if y == 4 { [200, 0, 0, 255] } else { [0, 200, 0, 255] });
        }
    }
    (w, h, e, c)
}

fn merge_all(q: &mut QuadTree, unit: u32) {
    let mut level = 0;
    while q.quad_optimize_level(level) > 0 {
        level += 1;
    }
    while q.line_optimize(unit) > 0 {}
}

#[test]
fn live_tiles_partition_the_grid() {
    let (w, h, e, c) = mixed();
    let (hm, cm) = maps(w, h, &e, &c);
    let mut q = QuadTree::new(&hm, &cm, 0).unwrap();
    merge_all(&mut q, 5);
    let mut hits = vec![0u32; (w * h) as usize];
    for ((x, y), (sx, sy)) in q.live_tiles(0) {
        for cx in x..x + sx {
            for cy in y..y + sy {
                assert!(cx < w && cy < h);
                hits[(cy * w + cx) as usize] += 1;
            }
        }
    }
    assert!(hits.iter().all(|&n| n == 1));
    assert!(q.live_tiles(0).len() < (w * h) as usize);
}

#[test]
fn merged_tiles_have_uniform_cells() {
    let (w, h, e, c) = mixed();
    let (hm, cm) = maps(w, h, &e, &c);
    let mut q = QuadTree::new(&hm, &cm, 0).unwrap();
    merge_all(&mut q, 5);
    for ((x, y), (sx, sy)) in q.live_tiles(0) {
        let anchor = (y * w + x) as usize;
        for cx in x..x + sx {
            for cy in y..y + sy {
                let i = (cy * w + cx) as usize;
                assert_eq!(e[i], e[anchor]);
                assert_eq!(c[i], c[anchor]);
            }
        }
    }
}

#[test]
fn run_pass_at_fixpoint_merges_nothing() {
    let (w, h, e, c) = mixed();
    let (hm, cm) = maps(w, h, &e, &c);
    let mut q = QuadTree::new(&hm, &cm, 0).unwrap();
    merge_all(&mut q, 5);
    let before = q.live_tiles(0);
    assert_eq!(q.line_optimize(5), 0);
    assert_eq!(q.line_optimize(5), 0);
    assert_eq!(q.live_tiles(0), before);
}

#[test]
fn passes_never_add_tiles_and_quads_remove_threes() {
    let (hm, cm) = maps(4, 4, &[3; 16], &[[9, 9, 9, 255]; 16]);
    let mut q = QuadTree::new(&hm, &cm, 0).unwrap();
    assert_eq!(q.quad_optimize_level(0), 12);
    assert_eq!(q.live_tiles(0).len(), 4);
    assert_eq!(q.quad_optimize_level(1), 3);
    assert_eq!(q.live_tiles(0), vec![((0, 0), (4, 4))]);
    assert_eq!(q.line_optimize(5), 0);
    assert_eq!(q.live_tiles(0).len(), 1);

    let (w, h, e, c) = mixed();
    let (hm, cm) = maps(w, h, &e, &c);
    let mut q = QuadTree::new(&hm, &cm, 0).unwrap();
    let mut live = q.live_tiles(0).len();
    let removed = q.quad_optimize_level(0);
    assert_eq!(removed % 3, 0);
    assert_eq!(q.live_tiles(0).len() + removed, live);
    live = q.live_tiles(0).len();
    let removed = q.line_optimize(5);
    assert_eq!(q.live_tiles(0).len() + removed, live);
}

#[test]
fn long_row_is_split_at_five_hundred_units() {
    let (hm, cm) = maps(250, 1, &[4; 250], &[[1, 2, 3, 255]; 250]);
    let mut o = options(5);
    o.quadtree = false;
    let bricks = gen_opt_heightmap(&hm, &cm, o, |_| true).unwrap();
    let widths: Vec<u32> = bricks.iter().map(|b| b.size.0).collect();
    assert_eq!(widths, vec![500, 500, 250]);
    assert!(bricks.iter().all(|b| b.size.0 <= 500 && b.size.1 <= 500 && b.size.2 <= 250));
}

#[test]
fn large_square_stays_within_limits() {
    let (hm, cm) = maps(64, 64, &[200; 64 * 64], &[[1, 2, 3, 255]; 64 * 64]);
    let mut o = options(10);
    o.scale = 4;
    let bricks = gen_opt_heightmap(&hm, &cm, o, |_| true).unwrap();
    assert!(!bricks.is_empty());
    assert!(bricks.iter().all(|b| b.size.0 <= 500 && b.size.1 <= 500 && b.size.2 <= 250));
    let area: u64 = bricks
        .iter()
        .filter(|b| b.position.2 == 800 - 250 + 4)
        .map(|b| (b.size.0 as u64 / 10) * (b.size.1 as u64 / 10))
        .sum();
    assert_eq!(area, 64 * 64);
}
