use dzi_assemble::compose::{compose_canvas, compose_layer, required_tiles};
use dzi_assemble::manifest::{parse_manifest, DziLayer};
use dzi_assemble::raster::{Pixel, Raster};

const RED: Pixel = Pixel { r: 255, g: 0, b: 0, a: 255 };
const BLUE: Pixel = Pixel { r: 0, g: 0, b: 255, a: 255 };
const CLEAR: Pixel = Pixel { r: 0, g: 0, b: 0, a: 0 };

fn id(s: &str) -> Vec<u8> {
    s.as_bytes().to_vec()
}

fn layer(grid: Vec<Vec<Vec<u8>>>) -> DziLayer {
    let rows = grid.len();
    let cols = if rows > 0 { grid[0].len() } else { 0 };
    DziLayer { tiles: grid, rows, cols }
}

#[test]
fn required_tiles_anchor_then_nonempty_cells() {
    let l = layer(vec![
        vec![id("a"), id("")],
        vec![id(""), id("b")],
    ]);
    let names = required_tiles(&l);
    assert_eq!(names, vec![id("a"), id("a"), id("b")]);
}

#[test]
fn required_tiles_empty_layer() {
    let l = layer(vec![]);
    assert_eq!(required_tiles(&l).len(), 0);
    let l2 = layer(vec![vec![]]);
    assert_eq!(required_tiles(&l2).len(), 0);
}

#[test]
fn required_tiles_includes_cells_past_first_row_length() {
    let l = layer(vec![vec![id("a")], vec![id("b"), id("c")]]);
    assert_eq!(required_tiles(&l), vec![id("a"), id("a"), id("b"), id("c")]);
}

#[test]
fn canvas_sizing() {
    // 1 row by 2 cols of 3x2 tiles: canvas is exactly 6 by 2
    let l = layer(vec![vec![id("a"), id("b")]]);
    let tiles = vec![
        Raster::new_fill(3, 2, RED),
        Raster::new_fill(3, 2, RED),
        Raster::new_fill(3, 2, BLUE),
    ];
    let canvas = compose_canvas(&l, &tiles).unwrap();
    assert_eq!(canvas.width, 6);
    assert_eq!(canvas.height, 2);
    assert_eq!(canvas.get(0, 0), RED);
    assert_eq!(canvas.get(5, 1), BLUE);
}

#[test]
fn empty_layer_composes_to_nothing() {
    let tiles: Vec<Raster> = vec![];
    assert!(compose_canvas(&layer(vec![]), &tiles).is_none());
    assert!(compose_canvas(&layer(vec![vec![]]), &tiles).is_none());
}

#[test]
fn empty_cells_stay_transparent() {
    // grid: a . / . b with 2x2 tiles; the two empty footprints stay clear
    let l = layer(vec![
        vec![id("a"), id("")],
        vec![id(""), id("b")],
    ]);
    let tiles = vec![
        Raster::new_fill(2, 2, RED),
        Raster::new_fill(2, 2, RED),
        Raster::new_fill(2, 2, BLUE),
    ];
    let canvas = compose_canvas(&l, &tiles).unwrap();
    assert_eq!(canvas.width, 4);
    assert_eq!(canvas.height, 4);
    for x in 0..2 {
        for y in 0..2 {
            assert_eq!(canvas.get(x, y), RED);
            assert_eq!(canvas.get(x + 2, y), CLEAR);
            assert_eq!(canvas.get(x, y + 2), CLEAR);
            assert_eq!(canvas.get(x + 2, y + 2), BLUE);
        }
    }
}

#[test]
fn crop_clips_but_never_pads() {
    let l = layer(vec![vec![id("a"), id("b")]]);
    let tiles = vec![
        Raster::new_fill(2, 2, RED),
        Raster::new_fill(2, 2, RED),
        Raster::new_fill(2, 2, BLUE),
    ];
    // canvas is 4x2; a large target clips to the canvas
    let img = compose_layer(&l, &tiles, 100, 100).unwrap();
    assert_eq!(img.width, 4);
    assert_eq!(img.height, 2);
    // a small target crops from the top-left corner
    let img2 = compose_layer(&l, &tiles, 3, 1).unwrap();
    assert_eq!(img2.width, 3);
    assert_eq!(img2.height, 1);
    assert_eq!(img2.get(0, 0), RED);
    assert_eq!(img2.get(2, 0), BLUE);
}

#[test]
fn first_row_defines_width() {
    // the first row has one cell; the second row's extra cell is loaded but
    // falls outside the one-column canvas
    let l = layer(vec![vec![id("a")], vec![id("b"), id("c")]]);
    let tiles = vec![
        Raster::new_fill(1, 1, RED),
        Raster::new_fill(1, 1, RED),
        Raster::new_fill(1, 1, BLUE),
        Raster::new_fill(1, 1, Pixel { r: 0, g: 255, b: 0, a: 255 }),
    ];
    let canvas = compose_canvas(&l, &tiles).unwrap();
    assert_eq!(canvas.width, 1);
    assert_eq!(canvas.height, 2);
    assert_eq!(canvas.get(0, 0), RED);
    assert_eq!(canvas.get(0, 1), BLUE);
}

#[test]
fn short_rows_leave_absent_cells_transparent() {
    let l = layer(vec![vec![id("a"), id("b")], vec![id("c")]]);
    let tiles = vec![
        Raster::new_fill(1, 1, RED),
        Raster::new_fill(1, 1, RED),
        Raster::new_fill(1, 1, BLUE),
        Raster::new_fill(1, 1, RED),
    ];
    let canvas = compose_canvas(&l, &tiles).unwrap();
    assert_eq!(canvas.width, 2);
    assert_eq!(canvas.height, 2);
    assert_eq!(canvas.get(1, 1), CLEAR);
}

#[test]
fn tiles_overwrite_never_blend() {
    // a semi-transparent tile replaces the canvas pixels in its footprint
    let faint = Pixel { r: 10, g: 20, b: 30, a: 40 };
    let l = layer(vec![vec![id("a")]]);
    let tiles = vec![Raster::new_fill(2, 2, faint), Raster::new_fill(2, 2, faint)];
    let canvas = compose_canvas(&l, &tiles).unwrap();
    assert_eq!(canvas.get(0, 0), faint);
    assert_eq!(canvas.get(1, 1), faint);
}

#[test]
fn end_to_end_two_red_tiles() {
    // a manifest with header 100,100 and one layer of two 50x50 red tiles:
    // at target 100x100 the canvas (100x50) is clipped, never padded, so
    // the output is 100x50, all red
    let input = b"A\n100,100\n2,1\ntile1,tile2\n".to_vec();
    let f = parse_manifest(&input).unwrap();
    assert_eq!(f.layers.len(), 1);
    let l = &f.layers[0];
    let names = required_tiles(l);
    assert_eq!(names, vec![id("tile1"), id("tile1"), id("tile2")]);
    let tiles: Vec<Raster> = names.iter().map(|_| Raster::new_fill(50, 50, RED)).collect();
    let target_w = dzi_assemble::plan::layer_target(f.width, 1);
    let target_h = dzi_assemble::plan::layer_target(f.height, 1);
    assert_eq!((target_w, target_h), (100, 100));
    let img = compose_layer(l, &tiles, target_w, target_h).unwrap();
    assert_eq!(img.width, 100);
    assert_eq!(img.height, 50);
    for x in [0u32, 49, 50, 99] {
        for y in [0u32, 25, 49] {
            assert_eq!(img.get(x, y), RED);
        }
    }
}

#[test]
fn rgba_round_trip() {
    let bytes: Vec<u8> = vec![1, 2, 3, 4, 5, 6, 7, 8];
    let img = Raster::from_rgba(2, 1, &bytes).unwrap();
    assert_eq!(img.get(0, 0), Pixel { r: 1, g: 2, b: 3, a: 4 });
    assert_eq!(img.get(1, 0), Pixel { r: 5, g: 6, b: 7, a: 8 });
    assert_eq!(img.to_rgba(), bytes);
}

#[test]
fn rgba_wrong_length_is_rejected() {
    let bytes: Vec<u8> = vec![1, 2, 3];
    assert!(Raster::from_rgba(2, 1, &bytes).is_none());
}

#[test]
fn blit_replaces_only_its_footprint() {
    let mut canvas = Raster::new_fill(2, 2, CLEAR);
    let tile = Raster::new_fill(1, 1, RED);
    canvas.blit(&tile, 1, 0);
    assert_eq!(canvas.get(1, 0), RED);
    assert_eq!(canvas.get(0, 0), CLEAR);
    assert_eq!(canvas.get(0, 1), CLEAR);
    assert_eq!(canvas.get(1, 1), CLEAR);
}
