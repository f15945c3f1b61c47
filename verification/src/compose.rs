//! Layer composition: stitching a layer's grid of tiles onto a transparent
//! canvas and cropping the result. The canvas is `cols * tw` by `rows * th`
//! pixels, where `rows` is the number of grid rows, `cols` the length of the
//! first row (the first row's length is authoritative), and `tw`, `th` the
//! anchor tile's dimensions. Every pixel of the result is pinned down by
//! `composed_pixel`.

use vstd::arithmetic::div_mod::{lemma_fundamental_div_mod, lemma_fundamental_div_mod_converse};
use vstd::math::min;
use vstd::prelude::*;

use crate::manifest::{DziLayer, LayerView};
use crate::raster::{transparent, Pixel, Raster};
use crate::text::{subvec, views};

verus! {

/// The non-empty tile identifiers of one grid row, left to right.
pub open spec fn row_tiles(row: Seq<Seq<u8>>) -> Seq<Seq<u8>>
    decreases row.len(),
{
    if row.len() == 0 {
        Seq::empty()
    } else {
        row_tiles(row.drop_last()) + (if row.last().len() > 0 {
            seq![row.last()]
        } else {
            Seq::empty()
        })
    }
}

/// The non-empty tile identifiers of a grid, row-major.
pub open spec fn grid_tiles(grid: Seq<Seq<Seq<u8>>>) -> Seq<Seq<u8>>
    decreases grid.len(),
{
    if grid.len() == 0 {
        Seq::empty()
    } else {
        grid_tiles(grid.drop_last()) + row_tiles(grid.last())
    }
}

/// Whether a layer composes to nothing: no rows, or an empty first row.
pub open spec fn layer_is_empty(l: LayerView) -> bool {
    l.tiles.len() == 0 || l.tiles[0].len() == 0
}

/// The tile images a layer's composition loads, in load order: the anchor
/// cell (row 0, column 0) first — even when it is empty, since its image
/// fixes the tile dimensions — then every non-empty cell, row-major.
pub open spec fn spec_required_tiles(l: LayerView) -> Seq<Seq<u8>> {
    if layer_is_empty(l) {
        Seq::empty()
    } else {
        seq![l.tiles[0][0]] + grid_tiles(l.tiles)
    }
}

/// The position in the load order of the image for the non-empty cell at
/// row `r`, column `c`: one for the anchor, plus every non-empty cell
/// before it.
pub open spec fn tile_index(grid: Seq<Seq<Seq<u8>>>, r: int, c: int) -> int {
    1 + grid_tiles(grid.take(r)).len() + row_tiles(grid[r].take(c)).len() as int
}

/// What the composed canvas holds at `(x, y)`: the cell covering the pixel
/// is row `y / th`, column `x / tw`; a present, non-empty cell contributes
/// its tile's pixel, any other cell leaves the canvas transparent.
pub open spec fn composed_pixel(grid: Seq<Seq<Seq<u8>>>, tiles: Seq<Raster>, x: int, y: int) -> Pixel {
    let tw = tiles[0].width as int;
    let th = tiles[0].height as int;
    let r = y / th;
    let c = x / tw;
    if c < grid[r].len() && grid[r][c].len() > 0 {
        tiles[tile_index(grid, r, c)].pix(x % tw, y % th)
    } else {
        transparent()
    }
}

/// Transparency default: a pixel whose covering cell holds an empty
/// identifier — or lies beyond its row's length — is fully transparent in
/// the composed canvas, whatever the neighboring cells hold.
pub proof fn lemma_empty_cell_transparent(
    grid: Seq<Seq<Seq<u8>>>,
    tiles: Seq<Raster>,
    x: int,
    y: int,
)
    requires
        ({
            let c = x / (tiles[0].width as int);
            let r = y / (tiles[0].height as int);
            c < grid[r].len() ==> grid[r][c].len() == 0
        }),
    ensures
        composed_pixel(grid, tiles, x, y) == transparent(),
{
}

/// Whether `tiles` is a fit set of images for the layer: one per entry of
/// the load order, all well formed and of one common size.
pub open spec fn tiles_match(l: LayerView, tiles: Seq<Raster>) -> bool {
    &&& tiles.len() == spec_required_tiles(l).len()
    &&& forall|k: int| 0 <= k < tiles.len() ==> (#[trigger] tiles[k]).wf()
    &&& forall|k: int|
        0 <= k < tiles.len() ==> (#[trigger] tiles[k]).width == tiles[0].width && tiles[k].height
            == tiles[0].height
}

/// The machine limits a composition needs: tiles are at least one pixel
/// each way and the canvas dimensions and pixel count fit their types.
pub open spec fn canvas_fits(l: LayerView, tw: int, th: int) -> bool {
    &&& tw > 0
    &&& th > 0
    &&& l.tiles[0].len() * tw <= u32::MAX
    &&& l.tiles.len() * th <= u32::MAX
    &&& (l.tiles[0].len() * tw) * (l.tiles.len() * th) <= usize::MAX
}

proof fn lemma_row_tiles_take_step(row: Seq<Seq<u8>>, c: int)
    requires
        0 <= c < row.len(),
    ensures
        row_tiles(row.take(c + 1)) == row_tiles(row.take(c)) + (if row[c].len() > 0 {
            seq![row[c]]
        } else {
            Seq::<Seq<u8>>::empty()
        }),
{
    assert(row.take(c + 1).drop_last() =~= row.take(c));
    assert(row.take(c + 1).last() == row[c]);
}

proof fn lemma_row_tiles_prefix_le(row: Seq<Seq<u8>>, c: int)
    requires
        0 <= c <= row.len(),
    ensures
        row_tiles(row.take(c)).len() <= row_tiles(row).len(),
    decreases row.len() - c,
{
    if c == row.len() {
        assert(row.take(c) =~= row);
    } else {
        lemma_row_tiles_take_step(row, c);
        lemma_row_tiles_prefix_le(row, c + 1);
    }
}

proof fn lemma_grid_tiles_take_step(grid: Seq<Seq<Seq<u8>>>, r: int)
    requires
        0 <= r < grid.len(),
    ensures
        grid_tiles(grid.take(r + 1)) == grid_tiles(grid.take(r)) + row_tiles(grid[r]),
{
    assert(grid.take(r + 1).drop_last() =~= grid.take(r));
    assert(grid.take(r + 1).last() == grid[r]);
}

proof fn lemma_grid_tiles_prefix_le(grid: Seq<Seq<Seq<u8>>>, r: int)
    requires
        0 <= r <= grid.len(),
    ensures
        grid_tiles(grid.take(r)).len() <= grid_tiles(grid).len(),
    decreases grid.len() - r,
{
    if r == grid.len() {
        assert(grid.take(r) =~= grid);
    } else {
        lemma_grid_tiles_take_step(grid, r);
        lemma_grid_tiles_prefix_le(grid, r + 1);
    }
}

/// The quotient of a value lying in cell `c` of a `t`-wide grid is `c`.
proof fn lemma_div_in_cell(v: int, t: int, c: int)
    requires
        t > 0,
        0 <= c,
        c * t <= v < (c + 1) * t,
    ensures
        v / t == c,
        v % t == v - c * t,
{
    assert((c + 1) * t == c * t + t) by (nonlinear_arith);
    lemma_fundamental_div_mod_converse(v, t, c, v - c * t);
}

/// A value below `n * t` lies in one of the first `n` cells.
proof fn lemma_div_bound(v: int, t: int, n: int)
    requires
        t > 0,
        0 <= v,
        v < n * t,
    ensures
        0 <= v / t < n,
        v % t == v - (v / t) * t,
        0 <= v % t < t,
        (v / t) * t <= v,
{
    lemma_fundamental_div_mod(v, t);
    vstd::arithmetic::div_mod::lemma_mod_bound(v, t);
    let q = v / t;
    assert(v == t * q + v % t);
    assert(q >= 0) by (nonlinear_arith)
        requires
            t > 0,
            v >= 0,
            0 <= v % t < t,
            v == t * q + v % t,
    ;
    assert(q < n) by (nonlinear_arith)
        requires
            t > 0,
            v < n * t,
            0 <= v % t < t,
            v == t * q + v % t,
    ;
    assert(t * q == q * t) by (nonlinear_arith);
}

/// The names of the tile images that composing `layer` loads, in load
/// order, exactly as `spec_required_tiles` lists them.
pub fn required_tiles(layer: &DziLayer) -> (r: Vec<Vec<u8>>)
    ensures
        views(r@) == spec_required_tiles(layer@),
{
    let ghost grid = layer@.tiles;
    let mut r: Vec<Vec<u8>> = Vec::new();
    if layer.tiles.len() == 0 {
        assert(views(r@) =~= spec_required_tiles(layer@));
        return r;
    }
    if layer.tiles[0].len() == 0 {
        assert(grid[0].len() == 0);
        assert(views(r@) =~= spec_required_tiles(layer@));
        return r;
    }
    let anchor = subvec(&layer.tiles[0][0], 0, layer.tiles[0][0].len());
    assert(anchor@ == grid[0][0]);
    r.push(anchor);
    proof {
        assert(grid.take(0) =~= Seq::<Seq<Seq<u8>>>::empty());
        assert(views(r@) =~= seq![grid[0][0]] + grid_tiles(grid.take(0)));
    }
    let mut y: usize = 0;
    while y < layer.tiles.len()
        invariant
            0 <= y <= layer@.tiles.len(),
            grid == layer@.tiles,
            grid.len() > 0,
            grid[0].len() > 0,
            views(r@) == seq![grid[0][0]] + grid_tiles(grid.take(y as int)),
        decreases layer@.tiles.len() - y,
    {
        let row_len = layer.tiles[y].len();
        let ghost row = grid[y as int];
        let mut x: usize = 0;
        proof {
            assert(row.take(0) =~= Seq::<Seq<u8>>::empty());
            assert(views(r@) =~= seq![grid[0][0]] + grid_tiles(grid.take(y as int)) + row_tiles(
                row.take(0),
            ));
        }
        while x < row_len
            invariant
                0 <= x <= row_len,
                y < grid.len(),
                grid == layer@.tiles,
                row == grid[y as int],
                row_len == row.len(),
                views(r@) == seq![grid[0][0]] + grid_tiles(grid.take(y as int)) + row_tiles(
                    row.take(x as int),
                ),
            decreases row_len - x,
        {
            proof {
                lemma_row_tiles_take_step(row, x as int);
            }
            if layer.tiles[y][x].len() > 0 {
                let cell = subvec(&layer.tiles[y][x], 0, layer.tiles[y][x].len());
                assert(cell@ == row[x as int]);
                let ghost old_r = r@;
                r.push(cell);
                proof {
                    assert(views(r@) =~= views(old_r) + seq![row[x as int]]);
                    assert(views(r@) =~= seq![grid[0][0]] + grid_tiles(grid.take(y as int))
                        + row_tiles(row.take(x + 1)));
                }
            } else {
                proof {
                    assert(row_tiles(row.take(x + 1)) =~= row_tiles(row.take(x as int)));
                }
            }
            x = x + 1;
        }
        proof {
            assert(row.take(row_len as int) =~= row);
            lemma_grid_tiles_take_step(grid, y as int);
            assert(seq![grid[0][0]] + grid_tiles(grid.take(y as int)) + row_tiles(row)
                =~= seq![grid[0][0]] + grid_tiles(grid.take(y + 1)));
        }
        y = y + 1;
    }
    proof {
        assert(grid.take(grid.len() as int) =~= grid);
        assert(views(r@) =~= spec_required_tiles(layer@));
    }
    r
}

/// Composes a layer onto a fresh, fully transparent canvas of
/// `cols * tw` by `rows * th` pixels, pasting each present, non-empty
/// cell's tile at `(col * tw, row * th)`. Cells beyond the first row's
/// length lie outside the canvas and paint nothing; empty identifiers leave
/// their footprint transparent. An empty layer composes to `None`.
pub fn compose_canvas(layer: &DziLayer, tiles: &Vec<Raster>) -> (r: Option<Raster>)
    requires
        tiles_match(layer@, tiles@),
        !layer_is_empty(layer@) ==> canvas_fits(
            layer@,
            tiles@[0].width as int,
            tiles@[0].height as int,
        ),
    ensures
        match r {
            None => layer_is_empty(layer@),
            Some(canvas) => {
                &&& !layer_is_empty(layer@)
                &&& canvas.wf()
                &&& canvas.width == layer@.tiles[0].len() * tiles@[0].width
                &&& canvas.height == layer@.tiles.len() * tiles@[0].height
                &&& forall|x: int, y: int|
                    0 <= x < canvas.width && 0 <= y < canvas.height ==> canvas.pix(x, y)
                        == composed_pixel(layer@.tiles, tiles@, x, y)
            },
        },
{
    let ghost grid = layer@.tiles;
    if layer.tiles.len() == 0 {
        return None;
    }
    if layer.tiles[0].len() == 0 {
        return None;
    }
    let rows = layer.tiles.len();
    let cols = layer.tiles[0].len();
    let tw = tiles[0].width;
    let th = tiles[0].height;
    proof {
        assert(cols <= cols * (tw as int)) by (nonlinear_arith)
            requires
                tw >= 1,
                cols >= 0,
        ;
        assert(rows <= rows * (th as int)) by (nonlinear_arith)
            requires
                th >= 1,
                rows >= 0,
        ;
    }
    let cw: u32 = (cols as u32) * tw;
    let ch: u32 = (rows as u32) * th;
    let mut canvas = Raster::new_fill(cw, ch, Pixel { r: 0, g: 0, b: 0, a: 0 });
    let tile_count = tiles.len();
    let mut k: usize = 1;
    let mut y: usize = 0;
    proof {
        assert(grid.take(0) =~= Seq::<Seq<Seq<u8>>>::empty());
    }
    while y < rows
        invariant
            0 <= y <= rows,
            grid == layer@.tiles,
            rows == grid.len(),
            cols == grid[0].len(),
            cols > 0,
            tiles_match(layer@, tiles@),
            !layer_is_empty(layer@),
            tw == tiles@[0].width,
            th == tiles@[0].height,
            canvas_fits(layer@, tw as int, th as int),
            cw == cols * tw,
            ch == rows * th,
            tile_count == tiles@.len(),
            canvas.wf(),
            canvas.width == cw,
            canvas.height == ch,
            k == 1 + grid_tiles(grid.take(y as int)).len(),
            forall|px: int, py: int|
                0 <= px < cw && 0 <= py < ch ==> canvas.pix(px, py) == (if py / (th as int) < y {
                    composed_pixel(grid, tiles@, px, py)
                } else {
                    transparent()
                }),
        decreases rows - y,
    {
        let row_len = layer.tiles[y].len();
        let ghost row = grid[y as int];
        let mut x: usize = 0;
        proof {
            assert(row.take(0) =~= Seq::<Seq<u8>>::empty());
        }
        while x < row_len
            invariant
                0 <= x <= row_len,
                0 <= y < rows,
                grid == layer@.tiles,
                rows == grid.len(),
                cols == grid[0].len(),
                cols > 0,
                row == grid[y as int],
                row_len == row.len(),
                tiles_match(layer@, tiles@),
                !layer_is_empty(layer@),
                tw == tiles@[0].width,
                th == tiles@[0].height,
                canvas_fits(layer@, tw as int, th as int),
                cw == cols * tw,
                ch == rows * th,
                tile_count == tiles@.len(),
                canvas.wf(),
                canvas.width == cw,
                canvas.height == ch,
                k == 1 + grid_tiles(grid.take(y as int)).len() + row_tiles(
                    row.take(x as int),
                ).len(),
                forall|px: int, py: int|
                    0 <= px < cw && 0 <= py < ch ==> canvas.pix(px, py) == (if py / (th as int) < y
                        || (py / (th as int) == y && px / (tw as int) < x) {
                        composed_pixel(grid, tiles@, px, py)
                    } else {
                        transparent()
                    }),
            decreases row_len - x,
        {
            proof {
                lemma_row_tiles_take_step(row, x as int);
                lemma_row_tiles_prefix_le(row, x + 1);
                lemma_grid_tiles_take_step(grid, y as int);
                lemma_grid_tiles_prefix_le(grid, y + 1);
                assert(tiles@.len() == 1 + grid_tiles(grid).len());
            }
            if layer.tiles[y][x].len() > 0 {
                assert(k < tiles@.len());
                if x < cols {
                    proof {
                        assert(cols <= cols * (tw as int)) by (nonlinear_arith)
                            requires
                                tw >= 1,
                                cols >= 0,
                        ;
                        assert(rows <= rows * (th as int)) by (nonlinear_arith)
                            requires
                                th >= 1,
                                rows >= 0,
                        ;
                        assert((x + 1) * (tw as int) <= cols * (tw as int) && x * (tw as int) + tw
                            == (x + 1) * (tw as int) && x * (tw as int) >= 0) by (nonlinear_arith)
                            requires
                                0 <= x < cols,
                                tw >= 1,
                        ;
                        assert((y + 1) * (th as int) <= rows * (th as int) && y * (th as int) + th
                            == (y + 1) * (th as int) && y * (th as int) >= 0) by (nonlinear_arith)
                            requires
                                0 <= y < rows,
                                th >= 1,
                        ;
                    }
                    let x0: u32 = (x as u32) * tw;
                    let y0: u32 = (y as u32) * th;
                    let ghost before = canvas;
                    canvas.blit(&tiles[k], x0, y0);
                    proof {
                        assert forall|px: int, py: int|
                            0 <= px < cw && 0 <= py < ch implies canvas.pix(px, py) == (if py / (
                        th as int) < y || (py / (th as int) == y && px / (tw as int) < x + 1) {
                            composed_pixel(grid, tiles@, px, py)
                        } else {
                            transparent()
                        }) by {
                            lemma_div_bound(px, tw as int, cols as int);
                            lemma_div_bound(py, th as int, rows as int);
                            if x0 <= px < x0 + tw && y0 <= py < y0 + th {
                                lemma_div_in_cell(px, tw as int, x as int);
                                lemma_div_in_cell(py, th as int, y as int);
                                assert(canvas.pix(px, py) == tiles@[k as int].pix(
                                    px - x0,
                                    py - y0,
                                ));
                                assert(composed_pixel(grid, tiles@, px, py) == tiles@[tile_index(
                                    grid,
                                    y as int,
                                    x as int,
                                )].pix(px % (tw as int), py % (th as int)));
                            } else {
                                assert(canvas.pix(px, py) == before.pix(px, py));
                                if py / (th as int) == y && px / (tw as int) == x {
                                    lemma_div_bound(px, tw as int, cols as int);
                                    assert(x * (tw as int) <= px < (x + 1) * (tw as int)) by {
                                        lemma_fundamental_div_mod(px, tw as int);
                                        vstd::arithmetic::div_mod::lemma_mod_bound(px, tw as int);
                                        assert((tw as int) * (px / (tw as int)) == (px / (
                                        tw as int)) * (tw as int)) by (nonlinear_arith);
                                    }
                                    assert(y * (th as int) <= py < (y + 1) * (th as int)) by {
                                        lemma_fundamental_div_mod(py, th as int);
                                        vstd::arithmetic::div_mod::lemma_mod_bound(py, th as int);
                                        assert((th as int) * (py / (th as int)) == (py / (
                                        th as int)) * (th as int)) by (nonlinear_arith);
                                    }
                                    assert(false);
                                }
                            }
                        }
                    }
                } else {
                    proof {
                        assert forall|px: int| 0 <= px < cw implies #[trigger] (px / (tw as int))
                            < cols by {
                            lemma_div_bound(px, tw as int, cols as int);
                        }
                    }
                }
                k = k + 1;
            } else {
                proof {
                    assert forall|px: int, py: int|
                        0 <= px < cw && 0 <= py < ch && py / (th as int) == y && px / (tw as int)
                            == x implies composed_pixel(grid, tiles@, px, py) == transparent() by {
                        assert(grid[y as int][x as int].len() == 0);
                    }
                }
            }
            x = x + 1;
        }
        proof {
            assert(row.take(row_len as int) =~= row);
            lemma_grid_tiles_take_step(grid, y as int);
            assert forall|px: int, py: int|
                0 <= px < cw && 0 <= py < ch implies canvas.pix(px, py) == (if py / (th as int) < y
                + 1 {
                composed_pixel(grid, tiles@, px, py)
            } else {
                transparent()
            }) by {
                lemma_div_bound(px, tw as int, cols as int);
                lemma_div_bound(py, th as int, rows as int);
                if py / (th as int) == y && !(px / (tw as int) < row_len) {
                    assert(px / (tw as int) >= grid[y as int].len());
                    assert(composed_pixel(grid, tiles@, px, py) == transparent());
                }
            }
        }
        y = y + 1;
    }
    proof {
        assert forall|px: int, py: int| 0 <= px < cw && 0 <= py < ch implies canvas.pix(px, py)
            == composed_pixel(grid, tiles@, px, py) by {
            lemma_div_bound(py, th as int, rows as int);
        }
    }
    Some(canvas)
}

/// Composes a layer and crops the canvas to `min(target_w, cols * tw)` by
/// `min(target_h, rows * th)`, anchored at the top-left corner: a target
/// larger than the canvas never pads, it only clips. An empty layer
/// produces `None` and no output.
pub fn compose_layer(layer: &DziLayer, tiles: &Vec<Raster>, target_w: u32, target_h: u32) -> (r:
    Option<Raster>)
    requires
        tiles_match(layer@, tiles@),
        !layer_is_empty(layer@) ==> canvas_fits(
            layer@,
            tiles@[0].width as int,
            tiles@[0].height as int,
        ),
    ensures
        match r {
            None => layer_is_empty(layer@),
            Some(img) => {
                &&& !layer_is_empty(layer@)
                &&& img.wf()
                &&& img.width == min(
                    target_w as int,
                    layer@.tiles[0].len() * tiles@[0].width,
                )
                &&& img.height == min(
                    target_h as int,
                    layer@.tiles.len() * tiles@[0].height,
                )
                &&& forall|x: int, y: int|
                    0 <= x < img.width && 0 <= y < img.height ==> img.pix(x, y) == composed_pixel(
                        layer@.tiles,
                        tiles@,
                        x,
                        y,
                    )
            },
        },
{
    match compose_canvas(layer, tiles) {
        None => None,
        Some(canvas) => Some(canvas.crop(target_w, target_h)),
    }
}

} // verus!
