//! Wallpaper profile creation: slicing a gridded image into one tile per
//! physical keypad button.

use vstd::prelude::*;
use vstd::arithmetic::div_mod::{lemma_fundamental_div_mod, lemma_fundamental_div_mod_converse};
use vstd::arithmetic::mul::{lemma_mul_inequality, lemma_mul_is_distributive_add};
use vstd::utf8::encode_utf8;

use crate::codec::{decode_standard, standard_base64_decoded};
use crate::imaging::{
    crop_picture, cropped, has_size, image_decoding, image_height, image_to_rgba, image_width, load_image, picture_rows,
    rows_width, Picture, Pixel,
};
use crate::text::{
    chars_of, contains_char, decimal, has_prefix, push_decimal, split_once, split_once_at, starts_with, string_of, trim,
    trimmed,
};

verus! {

/// Side of one key image, in pixels, in a separated grid.
pub const KEY_IMAGE_SIZE: u32 = 72;

/// Width of the divider strip between two key images of a separated grid.
pub const KEY_SEPARATOR: u32 = 16;

/// A crop rectangle: `(x, y, width, height)`.
pub type Rect = (u32, u32, u32, u32);

/// Why an image cannot be sliced into keypad tiles.
#[derive(Debug, Clone, Copy, PartialEq, Eq)]
pub enum TileError {
    /// The device has no keypad buttons (zero columns or zero rows).
    NoKeypadButtons,
    /// The image fits neither a separated grid nor a seamless grid.
    UnslicableImage {
        width: u32,
        height: u32,
        separated_width: u32,
        separated_height: u32,
        columns: u32,
        rows: u32,
    },
}

/// Side length of a separated grid of `n` keys: `n` key images with a
/// divider strip between each two neighbours.
pub open spec fn separated_extent(n: int) -> int {
    n * KEY_IMAGE_SIZE + (n - 1) * KEY_SEPARATOR
}

/// `rects` lists the cells of a `columns` x `rows` grid row by row, left to
/// right: cell `i` sits in column `i % columns` and row `i / columns`, at
/// `(column * stride_x, row * stride_y)`, and measures `tile_w` x `tile_h`.
pub open spec fn is_grid(
    rects: Seq<Rect>,
    columns: int,
    rows: int,
    tile_w: int,
    tile_h: int,
    stride_x: int,
    stride_y: int,
) -> bool {
    &&& rects.len() == columns * rows
    &&& forall|i: int|
        #![trigger rects[i]]
        0 <= i < rects.len() ==> {
            &&& rects[i].0 == (i % columns) * stride_x
            &&& rects[i].1 == (i / columns) * stride_y
            &&& rects[i].2 == tile_w
            &&& rects[i].3 == tile_h
        }
}

/// The image has exactly the size of a separated grid of the device's keys.
pub open spec fn is_separated_size(width: int, height: int, columns: int, rows: int) -> bool {
    width == separated_extent(columns) && height == separated_extent(rows)
}

/// What a successful slicing returns: the separated layout when the image
/// has the separated size, else the seamless layout, which needs the image
/// to divide evenly into the keys.
pub open spec fn is_tiling(width: int, height: int, columns: int, rows: int, rects: Seq<Rect>) -> bool {
    &&& columns > 0
    &&& rows > 0
    &&& if is_separated_size(width, height, columns, rows) {
        is_grid(
            rects,
            columns,
            rows,
            KEY_IMAGE_SIZE as int,
            KEY_IMAGE_SIZE as int,
            (KEY_IMAGE_SIZE + KEY_SEPARATOR) as int,
            (KEY_IMAGE_SIZE + KEY_SEPARATOR) as int,
        )
    } else {
        &&& width % columns == 0
        &&& height % rows == 0
        &&& is_grid(
            rects,
            columns,
            rows,
            width / columns,
            height / rows,
            width / columns,
            height / rows,
        )
    }
}

/// Cell `i` of a grid with `columns` columns lies in column `i % columns`,
/// row `i / columns`, where `i == row * columns + column`.
proof fn lemma_cell_index(row: int, column: int, columns: int)
    requires
        columns > 0,
        0 <= column < columns,
        row >= 0,
    ensures
        (row * columns + column) % columns == column,
        (row * columns + column) / columns == row,
{
    lemma_fundamental_div_mod_converse(row * columns + column, columns, row, column);
}

/// Column and row of grid cell `i`.
proof fn lemma_cell_position(i: int, columns: int, rows: int)
    requires
        columns > 0,
        0 <= i < columns * rows,
    ensures
        0 <= i % columns < columns,
        0 <= i / columns < rows,
        i == (i / columns) * columns + i % columns,
{
    lemma_fundamental_div_mod(i, columns);
    assert(0 <= i % columns < columns) by {
        vstd::arithmetic::div_mod::lemma_mod_pos_bound(i, columns);
    }
    let q = i / columns;
    assert(q >= 0) by {
        vstd::arithmetic::div_mod::lemma_div_pos_is_pos(i, columns);
    }
    assert(q < rows) by (nonlinear_arith)
        requires
            i == columns * q + i % columns,
            i % columns >= 0,
            i < columns * rows,
            columns > 0,
    ;
    assert(columns * q == q * columns) by (nonlinear_arith);
}

/// Two different cells of a grid whose stride is at least the tile size do
/// not overlap: one lies wholly left of, right of, above or below the other.
proof fn lemma_grid_cells_disjoint(
    rects: Seq<Rect>,
    columns: int,
    rows: int,
    tile_w: int,
    tile_h: int,
    stride_x: int,
    stride_y: int,
    i: int,
    j: int,
)
    requires
        columns > 0,
        0 <= tile_w <= stride_x,
        0 <= tile_h <= stride_y,
        is_grid(rects, columns, rows, tile_w, tile_h, stride_x, stride_y),
        0 <= i < rects.len(),
        0 <= j < rects.len(),
        i != j,
    ensures
        tiles_apart(rects[i], rects[j]),
{
    lemma_cell_position(i, columns, rows);
    lemma_cell_position(j, columns, rows);
    let (ci, ri, cj, rj) = (i % columns, i / columns, j % columns, j / columns);
    assert(rects[i].0 == ci * stride_x && rects[j].0 == cj * stride_x);
    assert(rects[i].1 == ri * stride_y && rects[j].1 == rj * stride_y);
    if ci < cj {
        assert(ci * stride_x + tile_w <= cj * stride_x) by (nonlinear_arith)
            requires
                ci + 1 <= cj,
                0 <= tile_w <= stride_x,
        ;
    } else if cj < ci {
        assert(cj * stride_x + tile_w <= ci * stride_x) by (nonlinear_arith)
            requires
                cj + 1 <= ci,
                0 <= tile_w <= stride_x,
        ;
    } else if ri < rj {
        assert(ri * stride_y + tile_h <= rj * stride_y) by (nonlinear_arith)
            requires
                ri + 1 <= rj,
                0 <= tile_h <= stride_y,
        ;
    } else {
        assert(rj < ri);
        assert(rj * stride_y + tile_h <= ri * stride_y) by (nonlinear_arith)
            requires
                rj + 1 <= ri,
                0 <= tile_h <= stride_y,
        ;
    }
}

/// Neither rectangle overlaps the other: one lies wholly to the left of,
/// to the right of, above or below the other.
pub open spec fn tiles_apart(a: Rect, b: Rect) -> bool {
    ||| a.0 + a.2 <= b.0
    ||| b.0 + b.2 <= a.0
    ||| a.1 + a.3 <= b.1
    ||| b.1 + b.3 <= a.1
}

/// The rectangle lies inside a `width` x `height` image.
pub open spec fn rect_inside(r: Rect, width: int, height: int) -> bool {
    r.0 + r.2 <= width && r.1 + r.3 <= height
}

/// Every tile that a slicing returns lies inside the image, and no two
/// tiles overlap.
pub proof fn lemma_tiles_inside_and_apart(width: u32, height: u32, columns: u32, rows: u32, rects: Seq<Rect>)
    requires
        is_tiling(width as int, height as int, columns as int, rows as int, rects),
    ensures
        forall|i: int| 0 <= i < rects.len() ==> #[trigger] rect_inside(rects[i], width as int, height as int),
        forall|i: int, j: int|
            0 <= i < rects.len() && 0 <= j < rects.len() && i != j ==> #[trigger] tiles_apart(rects[i], rects[j]),
{
    let (c, r) = (columns as int, rows as int);
    if is_separated_size(width as int, height as int, c, r) {
        assert forall|i: int| 0 <= i < rects.len() implies #[trigger] rect_inside(rects[i], width as int, height as int) by {
            lemma_cell_position(i, c, r);
            let (ci, ri) = (i % c, i / c);
            assert(ci * 88 + 72 <= c * 72 + (c - 1) * 16) by (nonlinear_arith)
                requires
                    0 <= ci < c,
            ;
            assert(ri * 88 + 72 <= r * 72 + (r - 1) * 16) by (nonlinear_arith)
                requires
                    0 <= ri < r,
            ;
        }
        assert forall|i: int, j: int|
            0 <= i < rects.len() && 0 <= j < rects.len() && i != j implies #[trigger] tiles_apart(rects[i], rects[j]) by {
            lemma_grid_cells_disjoint(rects, c, r, 72, 72, 88, 88, i, j);
        }
    } else {
        let (w, h) = (width as int, height as int);
        let (tw, th) = (w / c, h / r);
        lemma_fundamental_div_mod(w, c);
        lemma_fundamental_div_mod(h, r);
        assert forall|i: int| 0 <= i < rects.len() implies #[trigger] rect_inside(rects[i], width as int, height as int) by {
            lemma_cell_position(i, c, r);
            let (ci, ri) = (i % c, i / c);
            assert(ci * tw + tw <= c * tw) by (nonlinear_arith)
                requires
                    0 <= ci < c,
                    tw >= 0,
            ;
            assert(ri * th + th <= r * th) by (nonlinear_arith)
                requires
                    0 <= ri < r,
                    th >= 0,
            ;
            assert(c * tw == w) by (nonlinear_arith)
                requires
                    w == c * (w / c) + w % c,
                    w % c == 0,
                    tw == w / c,
            ;
            assert(r * th == h) by (nonlinear_arith)
                requires
                    h == r * (h / r) + h % r,
                    h % r == 0,
                    th == h / r,
            ;
        }
        assert forall|i: int, j: int|
            0 <= i < rects.len() && 0 <= j < rects.len() && i != j implies #[trigger] tiles_apart(rects[i], rects[j]) by {
            lemma_grid_cells_disjoint(rects, c, r, tw, th, tw, th, i, j);
        }
    }
}

/// Why a `width` x `height` image cannot be sliced into a `columns` x `rows`
/// keypad, if it cannot: no keys at all, or a size that fits neither the
/// separated grid nor an even division into the keys.
pub open spec fn tile_error(width: u32, height: u32, columns: u32, rows: u32) -> Option<TileError> {
    if columns == 0 || rows == 0 {
        Some(TileError::NoKeypadButtons)
    } else if is_separated_size(width as int, height as int, columns as int, rows as int) || (width % columns == 0
        && height % rows == 0) {
        None
    } else {
        Some(
            TileError::UnslicableImage {
                width,
                height,
                separated_width: separated_extent(columns as int) as u32,
                separated_height: separated_extent(rows as int) as u32,
                columns,
                rows,
            },
        )
    }
}

/// Pixel `(x, y)` lies in rectangle `r`.
pub open spec fn covers(r: Rect, x: int, y: int) -> bool {
    r.0 <= x < r.0 + r.2 && r.1 <= y < r.1 + r.3
}

/// Some tile of the slicing holds pixel `(x, y)`.
pub open spec fn in_some_tile(rects: Seq<Rect>, x: int, y: int) -> bool {
    exists|p: int| 0 <= p < rects.len() && #[trigger] covers(rects[p], x, y)
}

/// Grid cell `row * columns + column` is the cell at `column`, `row`.
proof fn lemma_cell_of(rects: Seq<Rect>, columns: int, rows: int, tw: int, th: int, sx: int, sy: int, column: int, row: int)
    requires
        is_grid(rects, columns, rows, tw, th, sx, sy),
        0 <= column < columns,
        0 <= row < rows,
    ensures
        0 <= row * columns + column < rects.len(),
        rects[row * columns + column].0 == column * sx,
        rects[row * columns + column].1 == row * sy,
{
    lemma_cell_index(row, column, columns);
    assert(row * columns + column < columns * rows) by (nonlinear_arith)
        requires
            0 <= column < columns,
            0 <= row < rows,
    ;
    assert(row * columns + column >= 0) by (nonlinear_arith)
        requires
            0 <= column,
            0 <= row,
            columns > 0,
    ;
}

/// An image of the separated size is cut into 72-pixel keys with 16-pixel
/// strips between them: a pixel lies in a tile exactly when it lies in
/// the first 72 pixels of its 88-pixel stride on both axes.
pub proof fn lemma_separated_tiles_skip_strips(width: u32, height: u32, columns: u32, rows: u32, rects: Seq<Rect>, x: int, y: int)
    requires
        is_tiling(width as int, height as int, columns as int, rows as int, rects),
        is_separated_size(width as int, height as int, columns as int, rows as int),
        0 <= x < width,
        0 <= y < height,
    ensures
        in_some_tile(rects, x, y) <==> (x % 88 < 72 && y % 88 < 72),
{
    let (c, r) = (columns as int, rows as int);
    lemma_fundamental_div_mod(x, 88);
    lemma_fundamental_div_mod(y, 88);
    vstd::arithmetic::div_mod::lemma_mod_pos_bound(x, 88);
    vstd::arithmetic::div_mod::lemma_mod_pos_bound(y, 88);
    if x % 88 < 72 && y % 88 < 72 {
        let (cx, cy) = (x / 88, y / 88);
        assert(cx < c) by (nonlinear_arith)
            requires
                x == 88 * cx + x % 88,
                0 <= x % 88,
                x < c * 72 + (c - 1) * 16,
        ;
        assert(cy < r) by (nonlinear_arith)
            requires
                y == 88 * cy + y % 88,
                0 <= y % 88,
                y < r * 72 + (r - 1) * 16,
        ;
        assert(cx >= 0 && cy >= 0) by (nonlinear_arith)
            requires
                x == 88 * cx + x % 88,
                y == 88 * cy + y % 88,
                x % 88 < 88,
                y % 88 < 88,
                x >= 0,
                y >= 0,
        ;
        lemma_cell_of(rects, c, r, 72, 72, 88, 88, cx, cy);
        assert(covers(rects[cy * c + cx], x, y));
    }
    if in_some_tile(rects, x, y) {
        let p = choose|p: int| 0 <= p < rects.len() && #[trigger] covers(rects[p], x, y);
        lemma_cell_position(p, c, r);
        let (cx, cy) = (p % c, p / c);
        assert(rects[p].0 == cx * 88 && rects[p].1 == cy * 88);
        lemma_fundamental_div_mod_converse(x, 88, cx, x - cx * 88);
        lemma_fundamental_div_mod_converse(y, 88, cy, y - cy * 88);
    }
}

/// An image that divides evenly into the keys is cut without gaps: every
/// pixel lies in a tile.
pub proof fn lemma_seamless_tiles_cover(width: u32, height: u32, columns: u32, rows: u32, rects: Seq<Rect>, x: int, y: int)
    requires
        is_tiling(width as int, height as int, columns as int, rows as int, rects),
        !is_separated_size(width as int, height as int, columns as int, rows as int),
        0 <= x < width,
        0 <= y < height,
    ensures
        in_some_tile(rects, x, y),
{
    let (c, r) = (columns as int, rows as int);
    let (w, h) = (width as int, height as int);
    let (tw, th) = (w / c, h / r);
    lemma_fundamental_div_mod(w, c);
    lemma_fundamental_div_mod(h, r);
    assert(tw > 0) by (nonlinear_arith)
        requires
            w == c * tw + w % c,
            w % c == 0,
            w > 0,
            c > 0,
    ;
    assert(th > 0) by (nonlinear_arith)
        requires
            h == r * th + h % r,
            h % r == 0,
            h > 0,
            r > 0,
    ;
    lemma_fundamental_div_mod(x, tw);
    lemma_fundamental_div_mod(y, th);
    vstd::arithmetic::div_mod::lemma_mod_pos_bound(x, tw);
    vstd::arithmetic::div_mod::lemma_mod_pos_bound(y, th);
    let (cx, cy) = (x / tw, y / th);
    assert(0 <= cx < c) by (nonlinear_arith)
        requires
            x == tw * cx + x % tw,
            0 <= x % tw < tw,
            0 <= x < w,
            w == c * tw,
            tw > 0,
    ;
    assert(0 <= cy < r) by (nonlinear_arith)
        requires
            y == th * cy + y % th,
            0 <= y % th < th,
            0 <= y < h,
            h == r * th,
            th > 0,
    ;
    lemma_cell_of(rects, c, r, tw, th, tw, th, cx, cy);
    assert(covers(rects[cy * c + cx], x, y)) by (nonlinear_arith)
        requires
            rects[cy * c + cx].0 == cx * tw,
            rects[cy * c + cx].1 == cy * th,
            rects[cy * c + cx].2 == tw,
            rects[cy * c + cx].3 == th,
            x == tw * cx + x % tw,
            0 <= x % tw < tw,
            y == th * cy + y % th,
            0 <= y % th < th,
    ;
}

/// Builds the rectangles of a `columns` x `rows` grid, row by row.
fn grid_rects(columns: u32, rows: u32, tile_w: u32, tile_h: u32, stride_x: u32, stride_y: u32) -> (rects: Vec<Rect>)
    requires
        columns > 0,
        rows > 0,
        (columns - 1) * stride_x <= u32::MAX,
        (rows - 1) * stride_y <= u32::MAX,
        columns * rows <= u32::MAX,
    ensures
        is_grid(rects@, columns as int, rows as int, tile_w as int, tile_h as int, stride_x as int, stride_y as int),
{
    let mut rects: Vec<Rect> = Vec::new();
    let mut row: u32 = 0;
    while row < rows
        invariant
            columns > 0,
            rows > 0,
            row <= rows,
            (columns - 1) * stride_x <= u32::MAX,
            (rows - 1) * stride_y <= u32::MAX,
            columns * rows <= u32::MAX,
            rects@.len() == row * columns,
            forall|i: int|
                #![trigger rects@[i]]
                0 <= i < rects@.len() ==> {
                    &&& rects@[i].0 == (i % columns as int) * stride_x
                    &&& rects@[i].1 == (i / columns as int) * stride_y
                    &&& rects@[i].2 == tile_w
                    &&& rects@[i].3 == tile_h
                },
        decreases rows - row,
    {
        proof {
            lemma_mul_inequality(row as int, (rows - 1) as int, stride_y as int);
        }
        let y: u32 = row * stride_y;
        let mut column: u32 = 0;
        while column < columns
            invariant
                columns > 0,
                row < rows,
                column <= columns,
                (columns - 1) * stride_x <= u32::MAX,
                columns * rows <= u32::MAX,
                y == row * stride_y,
                rects@.len() == row * columns + column,
                forall|i: int|
                    #![trigger rects@[i]]
                    0 <= i < rects@.len() ==> {
                        &&& rects@[i].0 == (i % columns as int) * stride_x
                        &&& rects@[i].1 == (i / columns as int) * stride_y
                        &&& rects@[i].2 == tile_w
                        &&& rects@[i].3 == tile_h
                    },
            decreases columns - column,
        {
            proof {
                lemma_mul_inequality(column as int, (columns - 1) as int, stride_x as int);
                lemma_cell_index(row as int, column as int, columns as int);
            }
            let x: u32 = column * stride_x;
            let ghost before = rects@;
            rects.push((x, y, tile_w, tile_h));
            proof {
                assert(rects@[before.len() as int] == (x, y, tile_w, tile_h));
            }
            column = column + 1;
        }
        proof {
            lemma_mul_is_distributive_add(columns as int, row as int, 1);
            assert(row * columns + columns == (row + 1) * columns) by (nonlinear_arith);
        }
        row = row + 1;
    }
    assert(rows * columns == columns * rows) by (nonlinear_arith);
    rects
}

/// Computes the crop rectangle `(x, y, width, height)` of every tile, left to
/// right and top to bottom, matching the device's keypad layout.
///
/// Two layouts are supported:
/// - separated grids: [`KEY_IMAGE_SIZE`] px tiles with [`KEY_SEPARATOR`] px
///   divider strips between them (e.g. 424x248 px for a 5x3 deck), and
/// - seamless grids: any size evenly divisible into `columns x rows` tiles.
pub fn tile_rects(width: u32, height: u32, columns: u32, rows: u32) -> (result: Result<Vec<Rect>, TileError>)
    requires
        separated_extent(columns as int) <= u32::MAX,
        separated_extent(rows as int) <= u32::MAX,
        tile_error(width, height, columns, rows) is None ==> columns * rows <= u32::MAX,
    ensures
        match result {
            Ok(rects) => tile_error(width, height, columns, rows) is None && is_tiling(
                width as int,
                height as int,
                columns as int,
                rows as int,
                rects@,
            ),
            Err(error) => tile_error(width, height, columns, rows) == Some(error),
        },
{
    if columns == 0 || rows == 0 {
        return Err(TileError::NoKeypadButtons);
    }
    let separated_width: u32 = columns * KEY_IMAGE_SIZE + (columns - 1) * KEY_SEPARATOR;
    let separated_height: u32 = rows * KEY_IMAGE_SIZE + (rows - 1) * KEY_SEPARATOR;
    if width == separated_width && height == separated_height {
        // Divider strips between the tiles, as in a rendered grid preview.
        let stride: u32 = KEY_IMAGE_SIZE + KEY_SEPARATOR;
        assert((columns - 1) * stride <= u32::MAX) by (nonlinear_arith)
            requires
                columns >= 1,
                stride == 88,
                columns * 72 + (columns - 1) * 16 <= u32::MAX,
        ;
        assert((rows - 1) * stride <= u32::MAX) by (nonlinear_arith)
            requires
                rows >= 1,
                stride == 88,
                rows * 72 + (rows - 1) * 16 <= u32::MAX,
        ;
        return Ok(grid_rects(columns, rows, KEY_IMAGE_SIZE, KEY_IMAGE_SIZE, stride, stride));
    }
    if width % columns == 0 && height % rows == 0 {
        // A seamless grid whose size divides evenly into the tiles.
        let cell_w: u32 = width / columns;
        let cell_h: u32 = height / rows;
        proof {
            lemma_fundamental_div_mod(width as int, columns as int);
            lemma_fundamental_div_mod(height as int, rows as int);
            lemma_mul_inequality((columns - 1) as int, columns as int, cell_w as int);
            lemma_mul_inequality((rows - 1) as int, rows as int, cell_h as int);
            assert(columns * cell_w == cell_w * columns) by (nonlinear_arith);
            assert(rows * cell_h == cell_h * rows) by (nonlinear_arith);
        }
        return Ok(grid_rects(columns, rows, cell_w, cell_h, cell_w, cell_h));
    }
    Err(
        TileError::UnslicableImage {
            width,
            height,
            separated_width,
            separated_height,
            columns,
            rows,
        },
    )
}

/// Why a wallpaper profile cannot be created.
#[derive(Debug)]
pub enum WallpaperError {
    /// The trimmed profile name is empty.
    EmptyName,
    /// The profile name contains `/`.
    NameContainsSlash,
    /// The device already has a profile of that (trimmed) name.
    NameTaken(String),
    /// The attachment has no `;base64,` marker.
    NotBase64DataUrl,
    /// The attachment's metadata does not start with `data:image/`; carries
    /// the metadata.
    NotImageDataUrl(String),
    /// The attachment's payload is not valid base64.
    InvalidBase64(base64::DecodeError),
    /// The decoded attachment is not a readable image.
    UnreadableImage(image::ImageError),
    /// The image cannot be sliced into the device's keys.
    Tiles(TileError),
    /// No installed action is the Starter Pack's "Run Command" action, which
    /// every key of a wallpaper profile is given.
    RunCommandMissing,
}

/// Which check a profile name fails first, if any: it must not be empty
/// once trimmed, must not contain `/`, and must not name an existing
/// profile.
pub open spec fn name_accepted(name: Seq<char>, existing: Seq<Seq<char>>) -> bool {
    let t = trimmed(name);
    t.len() > 0 && !t.contains('/') && !existing.contains(t)
}

/// Checks a new profile's name against the device's existing profiles and
/// returns it trimmed.
pub fn validate_profile_name(name: &str, existing: &Vec<String>) -> (result: Result<String, WallpaperError>)
    ensures
        match result {
            Ok(accepted) => name_accepted(name@, existing@.map_values(|p: String| p@)) && accepted@ == trimmed(name@),
            Err(WallpaperError::EmptyName) => trimmed(name@).len() == 0,
            Err(WallpaperError::NameContainsSlash) => trimmed(name@).len() > 0 && trimmed(name@).contains('/'),
            Err(WallpaperError::NameTaken(taken)) => {
                &&& trimmed(name@).len() > 0
                &&& !trimmed(name@).contains('/')
                &&& existing@.map_values(|p: String| p@).contains(trimmed(name@))
                &&& taken@ == trimmed(name@)
            },
            Err(_) => false,
        },
{
    let chars = chars_of(name);
    let t = trim(&chars);
    if t.len() == 0 {
        return Err(WallpaperError::EmptyName);
    }
    if contains_char(&t, '/') {
        return Err(WallpaperError::NameContainsSlash);
    }
    let trimmed_string = string_of(&t);
    let ghost views = existing@.map_values(|p: String| p@);
    let mut i: usize = 0;
    while i < existing.len()
        invariant
            i <= existing@.len(),
            views == existing@.map_values(|p: String| p@),
            trimmed_string@ == t@,
            t@ == trimmed(name@),
            t@.len() > 0,
            !t@.contains('/'),
            forall|k: int| 0 <= k < i ==> views[k] != t@,
        decreases existing.len() - i,
    {
        if existing[i] == trimmed_string {
            assert(views[i as int] == t@);
            assert(views.contains(t@));
            return Err(WallpaperError::NameTaken(trimmed_string));
        }
        i = i + 1;
    }
    Ok(trimmed_string)
}

/// What a `data:image/...;base64,` URL decodes to: the text before the
/// first `;base64,` must start with `data:image/`, and the rest is decoded
/// as standard base64.
pub open spec fn data_url_image_bytes(image: Seq<char>) -> Option<Seq<u8>> {
    match split_once_at(image, ";base64,"@) {
        Some((metadata, data)) => if has_prefix(metadata, "data:image/"@) {
            standard_base64_decoded(encode_utf8(data))
        } else {
            None
        },
        None => None,
    }
}

/// Extracts the image bytes from a base64 data URL attachment.
pub fn decode_data_url(image: &str) -> (result: Result<Vec<u8>, WallpaperError>)
    ensures
        match result {
            Ok(bytes) => data_url_image_bytes(image@) == Some(bytes@),
            Err(WallpaperError::NotBase64DataUrl) => split_once_at(image@, ";base64,"@) is None,
            Err(WallpaperError::NotImageDataUrl(metadata)) => split_once_at(image@, ";base64,"@) matches Some(
                (m, d),
            ) && m == metadata@ && !has_prefix(m, "data:image/"@),
            Err(WallpaperError::InvalidBase64(_)) => split_once_at(image@, ";base64,"@) matches Some((m, d))
                && has_prefix(m, "data:image/"@) && standard_base64_decoded(encode_utf8(d)) is None,
            Err(_) => false,
        },
{
    let chars = chars_of(image);
    let (metadata, data) = match split_once(&chars, &chars_of(";base64,")) {
        Some(parts) => parts,
        None => return Err(WallpaperError::NotBase64DataUrl),
    };
    if !starts_with(&metadata, &chars_of("data:image/")) {
        return Err(WallpaperError::NotImageDataUrl(string_of(&metadata)));
    }
    let data_string = string_of(&data);
    match decode_standard(data_string.as_str().as_bytes()) {
        Ok(bytes) => Ok(bytes),
        Err(error) => Err(WallpaperError::InvalidBase64(error)),
    }
}

/// Identifier of the Starter Pack's "Run Command" action: the inert
/// placeholder that every key of a wallpaper profile is given, so the
/// buttons stay pressable and survive instance pruning.
pub open spec fn run_command_uuid() -> Seq<char> {
    "com.amansprojects.starterpack.runcommand"@
}

/// `index` is the first position of `uuids` that holds the "Run Command"
/// action.
pub open spec fn first_run_command(uuids: Seq<String>, index: int) -> bool {
    &&& 0 <= index < uuids.len()
    &&& uuids[index]@ == run_command_uuid()
    &&& forall|k: int| 0 <= k < index ==> #[trigger] uuids[k]@ != run_command_uuid()
}

/// No entry of `uuids` is the "Run Command" action.
pub open spec fn lacks_run_command(uuids: Seq<String>) -> bool {
    forall|k: int| 0 <= k < uuids.len() ==> #[trigger] uuids[k]@ != run_command_uuid()
}

/// Finds the "Run Command" action among the identifiers of the installed
/// actions: the position of the first that matches.
pub fn find_run_command(action_uuids: &Vec<String>) -> (index: Option<usize>)
    ensures
        match index {
            Some(i) => first_run_command(action_uuids@, i as int),
            None => lacks_run_command(action_uuids@),
        },
{
    let target = String::from_str("com.amansprojects.starterpack.runcommand");
    let mut i: usize = 0;
    while i < action_uuids.len()
        invariant
            i <= action_uuids@.len(),
            target@ == run_command_uuid(),
            forall|k: int| 0 <= k < i ==> #[trigger] action_uuids@[k]@ != run_command_uuid(),
        decreases action_uuids.len() - i,
    {
        if action_uuids[i] == target {
            return Some(i);
        }
        i = i + 1;
    }
    None
}

/// Where a key of a wallpaper profile shows its tile: the key's place on
/// the device's keypad, and the directory (under the profile's image
/// directory) that holds its tile as `0.png`.
pub struct KeyPlan {
    /// The controller the key belongs to: `Keypad`.
    pub controller: String,
    /// The key's position on the keypad, as the action context stores it.
    pub position: u8,
    /// The state index within the key: 0.
    pub index: u8,
    /// `Keypad.{position}.0`.
    pub directory: String,
}

/// The directory name of key `position`'s tile: `Keypad.{position}.0`.
pub open spec fn key_directory(position: nat) -> Seq<char> {
    "Keypad."@ + decimal(position) + ".0"@
}

/// `plan` places tile `position` on keypad key `position`.
pub open spec fn is_key_plan(plan: KeyPlan, position: int) -> bool {
    &&& plan.controller@ == "Keypad"@
    &&& plan.position == position % 256
    &&& plan.index == 0
    &&& plan.directory@ == key_directory(position as nat)
}

/// The plan of each of the first `count` keys of the keypad, in order.
pub fn key_plans(count: usize) -> (plans: Vec<KeyPlan>)
    requires
        count <= u32::MAX,
    ensures
        plans@.len() == count,
        forall|p: int| 0 <= p < count ==> is_key_plan(#[trigger] plans@[p], p),
{
    let mut plans: Vec<KeyPlan> = Vec::new();
    let mut p: usize = 0;
    while p < count
        invariant
            p <= count <= u32::MAX,
            plans@.len() == p,
            forall|q: int| 0 <= q < p ==> is_key_plan(#[trigger] plans@[q], q),
        decreases count - p,
    {
        let mut directory = String::from_str("Keypad.");
        push_decimal(&mut directory, p as u32);
        directory.append(".0");
        let position: u8 = (p % 256) as u8;
        plans.push(KeyPlan { controller: String::from_str("Keypad"), position, index: 0, directory });
        p = p + 1;
    }
    plans
}

/// Where an action instance sits: its device, profile, controller,
/// position on the controller and state index.
pub struct KeyContext {
    pub device: String,
    pub profile: String,
    pub controller: String,
    pub position: u8,
    pub index: u8,
}

/// The action instance a wallpaper key gets: the installed action at
/// position `action` (the "Run Command" action), its context, the tile as
/// the image of its only state, that state current, and the setting
/// `command` set to `true`.
pub struct WallpaperInstance {
    pub action: usize,
    pub context: KeyContext,
    pub state_images: Vec<String>,
    pub current_state: u16,
    pub command: String,
}

/// The instance for the key that `plan` places on `device` in wallpaper
/// profile `profile`, showing the tile written at `image`.
pub fn wallpaper_instance(
    run_command: usize,
    plan: &KeyPlan,
    device: &str,
    profile: &str,
    image: String,
) -> (instance: WallpaperInstance)
    ensures
        instance.action == run_command,
        instance.context.device@ == device@,
        instance.context.profile@ == profile@,
        instance.context.controller@ == plan.controller@,
        instance.context.position == plan.position,
        instance.context.index == plan.index,
        instance.state_images@.len() == 1,
        instance.state_images@[0]@ == image@,
        instance.current_state == 0,
        instance.command@ == "true"@,
{
    let context = KeyContext {
        device: String::from_str(device),
        profile: String::from_str(profile),
        controller: plan.controller.clone(),
        position: plan.position,
        index: plan.index,
    };
    let mut state_images: Vec<String> = Vec::new();
    state_images.push(image);
    WallpaperInstance { action: run_command, context, state_images, current_state: 0, command: String::from_str("true") }
}

/// The image a wallpaper attachment holds, as decoding its data URL's bytes
/// gives it: width, height and RGBA pixel rows.
pub open spec fn attachment_image(image: Seq<char>) -> Option<(u32, u32, Seq<Seq<Pixel>>)> {
    match data_url_image_bytes(image) {
        Some(bytes) => image_decoding(bytes),
        None => None,
    }
}

/// The names of the existing profiles.
pub open spec fn profile_names(existing: Seq<String>) -> Seq<Seq<char>> {
    existing.map_values(|p: String| p@)
}

/// A wallpaper profile ready to be written: one cropped picture per keypad
/// button, in key order, with the rectangle each was cropped from and where
/// it goes.
pub struct WallpaperTiles {
    /// The accepted (trimmed) profile name.
    pub name: String,
    /// Crop rectangle of each key, left to right and top to bottom.
    pub rects: Vec<Rect>,
    /// The cropped tile of each key.
    pub tiles: Vec<Picture>,
    /// Where each tile goes: key `p` shows tile `p`.
    pub keys: Vec<KeyPlan>,
    /// Position of the "Run Command" action among the installed actions.
    pub run_command: usize,
}

/// The checks of [`slice_wallpaper`] that come before its image is decoded
/// all pass: the name is accepted and the attachment is a base64 image data
/// URL.
pub open spec fn attachment_reached(name: Seq<char>, existing: Seq<String>, image: Seq<char>) -> bool {
    name_accepted(name, profile_names(existing)) && data_url_image_bytes(image) is Some
}

/// Validates a new wallpaper profile and slices its image: checks the name,
/// decodes the data URL attachment and the image in it, lays the keypad's
/// `columns` x `rows` keys over the image, finds the "Run Command" action
/// among `action_uuids` (the identifiers of the installed actions), and
/// crops one tile per key. Each step's error is returned in that order.
pub fn slice_wallpaper(
    name: &str,
    existing: &Vec<String>,
    image: &str,
    columns: u8,
    rows: u8,
    action_uuids: &Vec<String>,
) -> (result: Result<WallpaperTiles, WallpaperError>)
    ensures
        match result {
            Ok(wallpaper) => {
                &&& attachment_reached(name@, existing@, image@)
                &&& wallpaper.name@ == trimmed(name@)
                &&& attachment_image(image@) matches Some((width, height, pixels))
                &&& tile_error(width, height, columns as u32, rows as u32) is None
                &&& is_tiling(width as int, height as int, columns as int, rows as int, wallpaper.rects@)
                &&& first_run_command(action_uuids@, wallpaper.run_command as int)
                &&& wallpaper.tiles@.len() == wallpaper.rects@.len()
                &&& wallpaper.keys@.len() == wallpaper.rects@.len()
                &&& forall|p: int|
                    0 <= p < wallpaper.rects@.len() ==> #[trigger] picture_rows(wallpaper.tiles@[p]) == cropped(
                        pixels,
                        wallpaper.rects@[p].0 as int,
                        wallpaper.rects@[p].1 as int,
                        wallpaper.rects@[p].2 as int,
                        wallpaper.rects@[p].3 as int,
                    )
                &&& forall|p: int| 0 <= p < wallpaper.rects@.len() ==> is_key_plan(#[trigger] wallpaper.keys@[p], p)
            },
            Err(WallpaperError::EmptyName) => trimmed(name@).len() == 0,
            Err(WallpaperError::NameContainsSlash) => trimmed(name@).len() > 0 && trimmed(name@).contains('/'),
            Err(WallpaperError::NameTaken(taken)) => {
                &&& trimmed(name@).len() > 0
                &&& !trimmed(name@).contains('/')
                &&& profile_names(existing@).contains(trimmed(name@))
                &&& taken@ == trimmed(name@)
            },
            Err(WallpaperError::NotBase64DataUrl) => name_accepted(name@, profile_names(existing@)) && split_once_at(
                image@,
                ";base64,"@,
            ) is None,
            Err(WallpaperError::NotImageDataUrl(metadata)) => {
                &&& name_accepted(name@, profile_names(existing@))
                &&& split_once_at(image@, ";base64,"@) matches Some((m, d))
                &&& m == metadata@
                &&& !has_prefix(m, "data:image/"@)
            },
            Err(WallpaperError::InvalidBase64(_)) => {
                &&& name_accepted(name@, profile_names(existing@))
                &&& split_once_at(image@, ";base64,"@) matches Some((m, d))
                &&& has_prefix(m, "data:image/"@)
                &&& standard_base64_decoded(encode_utf8(d)) is None
            },
            Err(WallpaperError::UnreadableImage(_)) => attachment_reached(name@, existing@, image@) && attachment_image(
                image@,
            ) is None,
            Err(WallpaperError::Tiles(error)) => {
                &&& attachment_reached(name@, existing@, image@)
                &&& attachment_image(image@) matches Some((width, height, pixels))
                &&& tile_error(width, height, columns as u32, rows as u32) == Some(error)
            },
            Err(WallpaperError::RunCommandMissing) => {
                &&& attachment_reached(name@, existing@, image@)
                &&& attachment_image(image@) matches Some((width, height, pixels))
                &&& tile_error(width, height, columns as u32, rows as u32) is None
                &&& lacks_run_command(action_uuids@)
            },
        },
{
    let accepted = match validate_profile_name(name, existing) {
        Ok(accepted) => accepted,
        Err(error) => return Err(error),
    };
    let bytes = match decode_data_url(image) {
        Ok(bytes) => bytes,
        Err(error) => return Err(error),
    };
    let ghost pixels_source = bytes@;
    let decoded = match load_image(bytes.as_slice()) {
        Ok(decoded) => decoded,
        Err(error) => return Err(WallpaperError::UnreadableImage(error)),
    };
    let width = image_width(&decoded);
    let height = image_height(&decoded);
    assert(columns * rows <= u32::MAX) by (nonlinear_arith)
        requires
            columns <= 255,
            rows <= 255,
    ;
    let rects = match tile_rects(width, height, columns as u32, rows as u32) {
        Ok(rects) => rects,
        Err(error) => return Err(WallpaperError::Tiles(error)),
    };
    let run_command = match find_run_command(action_uuids) {
        Some(index) => index,
        None => return Err(WallpaperError::RunCommandMissing),
    };
    let rgba = image_to_rgba(&decoded);
    let ghost pixels = picture_rows(rgba);
    proof {
        if height > 0 {
            assert(pixels[0].len() == width);
        }
        assert(has_size(pixels, rows_width(pixels), pixels.len() as int));
        assert(rects@.len() == columns * rows) by {
            if is_separated_size(width as int, height as int, columns as int, rows as int) {
            }
        }
    }
    let mut tiles: Vec<Picture> = Vec::new();
    let mut i: usize = 0;
    while i < rects.len()
        invariant
            i <= rects@.len(),
            tiles@.len() == i,
            picture_rows(rgba) == pixels,
            has_size(pixels, rows_width(pixels), pixels.len() as int),
            forall|p: int|
                0 <= p < i ==> #[trigger] picture_rows(tiles@[p]) == cropped(
                    pixels,
                    rects@[p].0 as int,
                    rects@[p].1 as int,
                    rects@[p].2 as int,
                    rects@[p].3 as int,
                ),
        decreases rects.len() - i,
    {
        let (x, y, w, h) = rects[i];
        tiles.push(crop_picture(&rgba, x, y, w, h));
        i = i + 1;
    }
    let keys = key_plans(rects.len());
    Ok(WallpaperTiles { name: accepted, rects, tiles, keys, run_command })
}

} // verus!
