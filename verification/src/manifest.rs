//! The pyramid manifest: a line-oriented text format holding the full-image
//! dimensions and, per layer, a header `cols,rows` followed by `rows` lines
//! of comma-separated tile identifiers. `parse_manifest` is proved equal to
//! the spec-level parser `spec_parse_manifest`, so each error case is pinned
//! down if and only if.

use vstd::prelude::*;

use crate::text::{
    fields_trimmed, is_uint_str, line_fields, parse_u32, parse_usize, spec_lines, split_lines,
    uint_val, views,
};

verus! {

/// One resolution level: a grid of tile identifiers (an empty identifier
/// marks an absent tile) together with the declared row and column counts.
/// The parser guarantees `rows == tiles.len()`; the declared `cols` is kept
/// verbatim and row lines may be shorter or longer than it.
pub struct DziLayer {
    pub tiles: Vec<Vec<Vec<u8>>>,
    pub rows: usize,
    pub cols: usize,
}

/// A parsed manifest: the full-resolution dimensions and the ordered layers.
pub struct DziFile {
    pub width: u32,
    pub height: u32,
    pub layers: Vec<DziLayer>,
}

/// Why a manifest text was rejected.
#[derive(Clone, Copy, Debug, PartialEq, Eq, Structural)]
pub enum ManifestError {
    /// Fewer than two lines: no size line to read.
    MissingSizeLine,
    /// The size line does not hold two or more comma-separated `u32` values.
    BadSizeLine,
    /// A layer header line does not hold two or more comma-separated values.
    BadLayerHeader,
    /// The text ends before a layer's declared number of row lines.
    TruncatedLayer,
}

pub ghost struct LayerView {
    pub tiles: Seq<Seq<Seq<u8>>>,
    pub rows: nat,
    pub cols: nat,
}

pub ghost struct FileView {
    pub width: nat,
    pub height: nat,
    pub layers: Seq<LayerView>,
}

/// The tile grids that a vector of rows holds.
pub open spec fn grid_views(g: Seq<Vec<Vec<u8>>>) -> Seq<Seq<Seq<u8>>> {
    g.map_values(|row: Vec<Vec<u8>>| views(row@))
}

impl View for DziLayer {
    type V = LayerView;

    open spec fn view(&self) -> LayerView {
        LayerView { tiles: grid_views(self.tiles@), rows: self.rows as nat, cols: self.cols as nat }
    }
}

/// The views of a vector of layers.
pub open spec fn layer_views(ls: Seq<DziLayer>) -> Seq<LayerView> {
    ls.map_values(|l: DziLayer| l@)
}

impl View for DziFile {
    type V = FileView;

    open spec fn view(&self) -> FileView {
        FileView {
            width: self.width as nat,
            height: self.height as nat,
            layers: layer_views(self.layers@),
        }
    }
}

/// Whether every field of `l` parses as a `u32` and there are at least two:
/// what the size line must satisfy.
pub open spec fn size_line_ok(l: Seq<u8>) -> bool {
    let fs = fields_trimmed(l);
    &&& fs.len() >= 2
    &&& forall|i: int| 0 <= i < fs.len() ==> is_uint_str(fs[i]) && uint_val(fs[i]) <= u32::MAX
}

pub open spec fn size_width(l: Seq<u8>) -> nat {
    uint_val(fields_trimmed(l)[0])
}

pub open spec fn size_height(l: Seq<u8>) -> nat {
    uint_val(fields_trimmed(l)[1])
}

/// Whether every field of `l` parses as a `usize` and there are at least
/// two: what a layer header line must satisfy.
pub open spec fn header_ok(l: Seq<u8>) -> bool {
    let fs = fields_trimmed(l);
    &&& fs.len() >= 2
    &&& forall|i: int| 0 <= i < fs.len() ==> is_uint_str(fs[i]) && uint_val(fs[i]) <= usize::MAX
}

/// The column count a header declares (it precedes the row count).
pub open spec fn header_cols(l: Seq<u8>) -> nat {
    uint_val(fields_trimmed(l)[0])
}

/// The row count a header declares.
pub open spec fn header_rows(l: Seq<u8>) -> nat {
    uint_val(fields_trimmed(l)[1])
}

/// The layer list that starts at line `i`: a header, then exactly its
/// declared number of row lines, repeated until the lines run out.
pub open spec fn spec_parse_layers(lines: Seq<Seq<u8>>, i: int) -> Result<
    Seq<LayerView>,
    ManifestError,
>
    decreases lines.len() - i,
{
    if i < 0 || i >= lines.len() {
        Ok(Seq::empty())
    } else if !header_ok(lines[i]) {
        Err(ManifestError::BadLayerHeader)
    } else {
        let cols = header_cols(lines[i]);
        let rows = header_rows(lines[i]);
        if i + 1 + rows > lines.len() {
            Err(ManifestError::TruncatedLayer)
        } else {
            let layer = LayerView {
                tiles: Seq::new(rows, |j: int| fields_trimmed(lines[i + 1 + j])),
                rows,
                cols,
            };
            match spec_parse_layers(lines, i + 1 + rows) {
                Ok(rest) => Ok(seq![layer] + rest),
                Err(e) => Err(e),
            }
        }
    }
}

/// The whole manifest: the first line is ignored, the second holds
/// `width,height`, and the rest is the layer list. A manifest with zero
/// layers is valid.
pub open spec fn spec_parse_manifest(s: Seq<u8>) -> Result<FileView, ManifestError> {
    let lines = spec_lines(s);
    if lines.len() < 2 {
        Err(ManifestError::MissingSizeLine)
    } else if !size_line_ok(lines[1]) {
        Err(ManifestError::BadSizeLine)
    } else {
        match spec_parse_layers(lines, 2) {
            Ok(layers) => Ok(
                FileView { width: size_width(lines[1]), height: size_height(lines[1]), layers },
            ),
            Err(e) => Err(e),
        }
    }
}

/// Round trip of the grid shape: a layer header `cols,rows` followed by its
/// `rows` row lines parses to a grid of exactly `rows` rows, each row line's
/// fields kept verbatim — so row 0 has `cols` entries whenever its line has
/// `cols` fields, and rows of any other length are preserved, not
/// normalized.
pub proof fn lemma_round_trip_grid_shape(lines: Seq<Seq<u8>>, i: int, ls: Seq<LayerView>)
    requires
        0 <= i < lines.len(),
        header_ok(lines[i]),
        i + 1 + header_rows(lines[i]) <= lines.len(),
        spec_parse_layers(lines, i) == Ok::<Seq<LayerView>, ManifestError>(ls),
    ensures
        ls.len() >= 1,
        ls[0].rows == header_rows(lines[i]),
        ls[0].cols == header_cols(lines[i]),
        ls[0].tiles.len() == header_rows(lines[i]),
        forall|j: int|
            0 <= j < ls[0].tiles.len() ==> ls[0].tiles[j] == fields_trimmed(lines[i + 1 + j]),
        header_rows(lines[i]) > 0 && fields_trimmed(lines[i + 1]).len() == header_cols(lines[i])
            ==> ls[0].tiles[0].len() == header_cols(lines[i]),
{
    let rows = header_rows(lines[i]);
    let cols = header_cols(lines[i]);
    let layer = LayerView {
        tiles: Seq::new(rows, |j: int| fields_trimmed(lines[i + 1 + j])),
        rows,
        cols,
    };
    match spec_parse_layers(lines, i + 1 + rows) {
        Ok(rest) => {
            assert(ls == seq![layer] + rest);
            assert(ls[0] == layer);
        },
        Err(_) => {
            assert(false);
        },
    }
}

spec fn prepend_layers(
    pre: Seq<LayerView>,
    r: Result<Seq<LayerView>, ManifestError>,
) -> Result<Seq<LayerView>, ManifestError> {
    match r {
        Ok(rest) => Ok(pre + rest),
        Err(e) => Err(e),
    }
}

/// The first two `u32` fields of `l`, provided every field of `l` parses as
/// a `u32`; `None` exactly when `l` is not a valid size line.
fn parse_u32_pair(l: &Vec<u8>) -> (r: Option<(u32, u32)>)
    ensures
        match r {
            Some(p) => size_line_ok(l@) && p.0 == size_width(l@) && p.1 == size_height(l@),
            None => !size_line_ok(l@),
        },
{
    let fields = line_fields(l);
    let ghost ft = fields_trimmed(l@);
    if fields.len() < 2 {
        return None;
    }
    let mut a: u32 = 0;
    let mut b: u32 = 0;
    let mut i: usize = 0;
    while i < fields.len()
        invariant
            0 <= i <= fields@.len(),
            fields@.len() >= 2,
            views(fields@) == ft,
            ft == fields_trimmed(l@),
            forall|k: int| 0 <= k < i ==> is_uint_str(ft[k]) && uint_val(ft[k]) <= u32::MAX,
            i >= 1 ==> a == uint_val(ft[0]),
            i >= 2 ==> b == uint_val(ft[1]),
        decreases fields@.len() - i,
    {
        assert(fields@[i as int]@ == ft[i as int]);
        match parse_u32(&fields[i]) {
            None => {
                return None;
            },
            Some(v) => {
                if i == 0 {
                    a = v;
                } else if i == 1 {
                    b = v;
                }
            },
        }
        i = i + 1;
    }
    Some((a, b))
}

/// The first two `usize` fields of `l`, provided every field of `l` parses
/// as a `usize`; `None` exactly when `l` is not a valid layer header.
fn parse_usize_pair(l: &Vec<u8>) -> (r: Option<(usize, usize)>)
    ensures
        match r {
            Some(p) => header_ok(l@) && p.0 == header_cols(l@) && p.1 == header_rows(l@),
            None => !header_ok(l@),
        },
{
    let fields = line_fields(l);
    let ghost ft = fields_trimmed(l@);
    if fields.len() < 2 {
        return None;
    }
    let mut a: usize = 0;
    let mut b: usize = 0;
    let mut i: usize = 0;
    while i < fields.len()
        invariant
            0 <= i <= fields@.len(),
            fields@.len() >= 2,
            views(fields@) == ft,
            ft == fields_trimmed(l@),
            forall|k: int| 0 <= k < i ==> is_uint_str(ft[k]) && uint_val(ft[k]) <= usize::MAX,
            i >= 1 ==> a == uint_val(ft[0]),
            i >= 2 ==> b == uint_val(ft[1]),
        decreases fields@.len() - i,
    {
        assert(fields@[i as int]@ == ft[i as int]);
        match parse_usize(&fields[i]) {
            None => {
                return None;
            },
            Some(v) => {
                if i == 0 {
                    a = v;
                } else if i == 1 {
                    b = v;
                }
            },
        }
        i = i + 1;
    }
    Some((a, b))
}

/// Parses a manifest text, exactly as `spec_parse_manifest` describes: the
/// result and each failure case agree with the spec-level parser.
pub fn parse_manifest(s: &Vec<u8>) -> (r: Result<DziFile, ManifestError>)
    ensures
        match r {
            Ok(f) => spec_parse_manifest(s@) matches Ok(v) && f@ == v,
            Err(e) => spec_parse_manifest(s@) matches Err(e2) && e == e2,
        },
{
    let lines = split_lines(s);
    let ghost ld = spec_lines(s@);
    if lines.len() < 2 {
        return Err(ManifestError::MissingSizeLine);
    }
    let (width, height) = match parse_u32_pair(&lines[1]) {
        Some(p) => p,
        None => {
            assert(views(lines@)[1] == lines@[1]@);
            return Err(ManifestError::BadSizeLine);
        },
    };
    assert(views(lines@)[1] == lines@[1]@);
    let mut layers: Vec<DziLayer> = Vec::new();
    let mut i: usize = 2;
    proof {
        assert(prepend_layers(layer_views(layers@), spec_parse_layers(ld, 2)) =~~= spec_parse_layers(
            ld,
            2,
        ));
    }
    while i < lines.len()
        invariant
            2 <= i <= lines@.len(),
            ld == spec_lines(s@),
            views(lines@) == ld,
            size_line_ok(ld[1]),
            prepend_layers(layer_views(layers@), spec_parse_layers(ld, i as int))
                == spec_parse_layers(ld, 2),
        decreases lines@.len() - i,
    {
        assert(views(lines@)[i as int] == lines@[i as int]@);
        let (cols, rows) = match parse_usize_pair(&lines[i]) {
            Some(p) => p,
            None => {
                assert(spec_parse_layers(ld, i as int) == Err::<Seq<LayerView>, ManifestError>(
                    ManifestError::BadLayerHeader,
                ));
                return Err(ManifestError::BadLayerHeader);
            },
        };
        if rows > lines.len() - (i + 1) {
            assert(spec_parse_layers(ld, i as int) == Err::<Seq<LayerView>, ManifestError>(
                ManifestError::TruncatedLayer,
            ));
            return Err(ManifestError::TruncatedLayer);
        }
        let mut tiles: Vec<Vec<Vec<u8>>> = Vec::new();
        let mut j: usize = 0;
        proof {
            assert(grid_views(tiles@) =~= Seq::new(0, |k: int| fields_trimmed(ld[i + 1 + k])));
        }
        while j < rows
            invariant
                0 <= j <= rows,
                2 <= i,
                i + 1 + rows <= lines@.len(),
                i + 1 + rows <= usize::MAX,
                views(lines@) == ld,
                grid_views(tiles@) == Seq::new(j as nat, |k: int| fields_trimmed(ld[i + 1 + k])),
            decreases rows - j,
        {
            assert(views(lines@)[i + 1 + j] == lines@[i + 1 + j]@);
            let ghost old_tiles = tiles@;
            tiles.push(line_fields(&lines[i + 1 + j]));
            proof {
                assert(grid_views(tiles@) =~= grid_views(old_tiles).push(
                    fields_trimmed(ld[i + 1 + j]),
                ));
                assert(grid_views(tiles@) =~= Seq::new(
                    (j + 1) as nat,
                    |k: int| fields_trimmed(ld[i + 1 + k]),
                ));
            }
            j = j + 1;
        }
        let layer = DziLayer { tiles, rows, cols };
        let ghost spec_layer = LayerView {
            tiles: Seq::new(rows as nat, |k: int| fields_trimmed(ld[i + 1 + k])),
            rows: rows as nat,
            cols: cols as nat,
        };
        assert(layer@ == spec_layer);
        let ghost old_layers = layers@;
        layers.push(layer);
        proof {
            assert(spec_parse_layers(ld, i as int) == prepend_layers(
                seq![spec_layer],
                spec_parse_layers(ld, i + 1 + rows),
            ));
            assert(layer_views(layers@) =~= layer_views(old_layers).push(spec_layer));
            match spec_parse_layers(ld, i + 1 + rows) {
                Ok(rest) => {
                    assert(layer_views(old_layers) + (seq![spec_layer] + rest) =~= layer_views(
                        layers@,
                    ) + rest);
                },
                Err(_) => {},
            }
        }
        i = i + 1 + rows;
    }
    proof {
        assert(spec_parse_layers(ld, i as int) == Ok::<Seq<LayerView>, ManifestError>(Seq::empty()));
        match spec_parse_layers(ld, 2) {
            Ok(all) => {
                assert(layer_views(layers@) + Seq::<LayerView>::empty() =~= layer_views(layers@));
                assert(all == layer_views(layers@));
            },
            Err(_) => {},
        }
    }
    let f = DziFile { width, height, layers };
    assert(spec_parse_manifest(s@) matches Ok(v) && f@ == v);
    Ok(f)
}

} // verus!
