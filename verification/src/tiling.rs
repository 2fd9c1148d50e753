use vstd::prelude::*;

use image::GenericImageView;

use crate::group::{
    absorbed_in, absorbed_once, create_candidate_table, create_groups, group_ok, groups_view,
    is_seed, spec_canonical_table, spec_formation, Group,
};
use crate::pixel::PixelColor;
use crate::tile::{Tile, MAX_COLORS, TILE_SIZE};

verus! {

/// A fatal input-format violation: the whole computation is meaningless
/// once one of these holds, so the run aborts with it.
#[derive(Clone, Copy, PartialEq, Eq, Structural, Debug)]
pub enum InputError {
    /// An image dimension is not a multiple of the tile size.
    UnalignedDimensions,
    /// A pixel's alpha is strictly between fully transparent and fully opaque.
    SemitransparentPixel,
    /// A single tile already holds more distinct colors than the budget.
    TooManyColors,
    /// The image could not supply a pixel that its dimensions promised.
    MissingPixel,
}

#[verifier::external_type_specification]
#[verifier::external_body]
pub struct ExDynamicImage(image::DynamicImage);

/// The width and height that image's GenericImageView::dimensions reports
/// for this image: a function of the decoded image alone.
pub uninterp spec fn image_dims_of(img: image::DynamicImage) -> (u32, u32);

/// The RGBA channels that image's GenericImageView::get_pixel reports for
/// the pixel at (x, y): a function of the decoded image and the
/// coordinates alone.
pub uninterp spec fn image_pixel_of(img: image::DynamicImage, x: u32, y: u32) -> (u8, u8, u8, u8);

/// Relies on image's GenericImageView::dimensions for DynamicImage: the
/// width and height of the decoded image, in pixels.
#[verifier::external_body]
fn image_dimensions(img: &image::DynamicImage) -> (dims: (u32, u32))
    ensures
        dims == image_dims_of(*img),
{
    img.dimensions()
}

/// Relies on image's GenericImageView::get_pixel for DynamicImage, which
/// hands back the RGBA channels of the pixel at (x, y) and panics out of
/// bounds; the in_bounds test, the crate's own bounds query against the
/// same dimensions, keeps the call inside the image, so the wrapper never
/// panics and answers Some exactly on the pixels the image has.
#[verifier::external_body]
fn pixel_rgba(img: &image::DynamicImage, x: u32, y: u32) -> (p: Option<(u8, u8, u8, u8)>)
    ensures
        p is Some <==> (x < image_dims_of(*img).0 && y < image_dims_of(*img).1),
        p matches Some(q) ==> q == image_pixel_of(*img, x, y),
{
    if img.in_bounds(x, y) {
        let q = img.get_pixel(x, y);
        Some((q.0[0], q.0[1], q.0[2], q.0[3]))
    } else {
        None
    }
}

/// The color identity of one raw RGBA pixel whose alpha is fully
/// transparent or fully opaque.
pub open spec fn spec_pixel_color(p: (u8, u8, u8, u8)) -> PixelColor {
    if p.3 == 0 {
        PixelColor::Empty
    } else {
        PixelColor::Full(p.0, p.1, p.2)
    }
}

/// Whether a raw pixel's alpha is admissible: fully transparent or fully
/// opaque, nothing in between.
pub open spec fn spec_pixel_alpha_ok(p: (u8, u8, u8, u8)) -> bool {
    p.3 == 0 || p.3 == 255
}

/// The RGBA value of pixel `k` of the square cell at tile coordinate
/// (x, y); the cell's pixels are numbered column by column, in the order
/// the cell is read.
pub open spec fn cell_pixel(img: image::DynamicImage, x: u32, y: u32, k: int) -> (u8, u8, u8, u8) {
    image_pixel_of(
        img,
        (x * TILE_SIZE + k / (TILE_SIZE as int)) as u32,
        (y * TILE_SIZE + k % (TILE_SIZE as int)) as u32,
    )
}

/// Whether pixel `k` of the cell lies inside the image's dimensions.
pub open spec fn cell_pixel_in_bounds(img: image::DynamicImage, x: u32, y: u32, k: int) -> bool {
    x * TILE_SIZE + k / (TILE_SIZE as int) < image_dims_of(img).0 && y * TILE_SIZE + k % (
    TILE_SIZE as int) < image_dims_of(img).1
}

/// Every cell pixel before `k` is inside the image and has an admissible
/// alpha: the cell read reaches pixel `k` without stopping.
pub open spec fn cell_prefix_clean(img: image::DynamicImage, x: u32, y: u32, k: int) -> bool {
    forall|j: int|
        #![trigger cell_pixel(img, x, y, j)]
        #![trigger cell_pixel_in_bounds(img, x, y, j)]
        0 <= j < k ==> cell_pixel_in_bounds(img, x, y, j) && spec_pixel_alpha_ok(
            cell_pixel(img, x, y, j),
        )
}

/// The cell's pixel colors, in read order.
pub open spec fn cell_color_seq(img: image::DynamicImage, x: u32, y: u32) -> Seq<PixelColor> {
    Seq::new((TILE_SIZE * TILE_SIZE) as nat, |k: int| spec_pixel_color(cell_pixel(img, x, y, k)))
}

/// The cell's distinct colors.
pub open spec fn cell_colors(img: image::DynamicImage, x: u32, y: u32) -> Set<PixelColor> {
    cell_color_seq(img, x, y).to_set()
}

/// A cell that yields a tile: fully inside the image, every alpha
/// admissible, and its distinct colors within the palette budget.
pub open spec fn cell_clean(img: image::DynamicImage, x: u32, y: u32) -> bool {
    cell_prefix_clean(img, x, y, (TILE_SIZE * TILE_SIZE) as int) && cell_colors(img, x, y).len()
        <= MAX_COLORS
}

/// The cell read stops on a pixel the image cannot supply: some pixel is
/// out of bounds and everything before it reads cleanly.
pub open spec fn cell_read_fails(img: image::DynamicImage, x: u32, y: u32) -> bool {
    exists|k: int|
        0 <= k < (TILE_SIZE * TILE_SIZE) as int && !cell_pixel_in_bounds(img, x, y, k)
            && #[trigger] cell_prefix_clean(img, x, y, k)
}

/// The cell read stops on a pixel with partial alpha: some readable pixel
/// has an inadmissible alpha and everything before it reads cleanly.
pub open spec fn cell_alpha_fails(img: image::DynamicImage, x: u32, y: u32) -> bool {
    exists|k: int|
        0 <= k < (TILE_SIZE * TILE_SIZE) as int && cell_pixel_in_bounds(img, x, y, k)
            && !spec_pixel_alpha_ok(cell_pixel(img, x, y, k)) && #[trigger] cell_prefix_clean(
            img,
            x,
            y,
            k,
        )
}

/// Whether the image's dimensions are both multiples of the tile size.
pub open spec fn dims_aligned(img: image::DynamicImage) -> bool {
    image_dims_of(img).0 % TILE_SIZE == 0 && image_dims_of(img).1 % TILE_SIZE == 0
}

/// The tile grid's width: how many tile columns the image holds.
pub open spec fn grid_w(img: image::DynamicImage) -> u32 {
    image_dims_of(img).0 / TILE_SIZE
}

/// The tile grid's height: how many tile rows the image holds.
pub open spec fn grid_h(img: image::DynamicImage) -> u32 {
    image_dims_of(img).1 / TILE_SIZE
}

/// The image is fit for tiling: aligned dimensions, and every grid cell
/// reads cleanly within the palette budget.
pub open spec fn image_clean(img: image::DynamicImage) -> bool {
    dims_aligned(img) && forall|cx: u32, cy: u32|
        cx < grid_w(img) && cy < grid_h(img) ==> #[trigger] cell_clean(img, cx, cy)
}

/// Column-major grid order on tiles: `a`'s cell is enumerated before `b`'s.
pub open spec fn tile_lex_before(a: Tile, b: Tile) -> bool {
    a.x < b.x || (a.x == b.x && a.y < b.y)
}

/// The one tile list the image yields: one well-formed tile per non-blank
/// grid cell, holding exactly that cell's distinct colors, listed in
/// column-major enumeration order with the blank cells dropped.
pub open spec fn tiles_of_image(img: image::DynamicImage, tiles: Seq<Tile>) -> bool {
    &&& forall|k: int|
        0 <= k < tiles.len() ==> ((#[trigger] tiles[k]).wf() && tiles[k].x < grid_w(img)
            && tiles[k].y < grid_h(img) && tiles[k].color_set() == cell_colors(
            img,
            tiles[k].x,
            tiles[k].y,
        ) && tiles[k].color_set() != set![PixelColor::Empty])
    &&& forall|k1: int, k2: int|
        0 <= k1 < k2 < tiles.len() ==> tile_lex_before(
            #[trigger] tiles[k1],
            #[trigger] tiles[k2],
        )
    &&& forall|cx: u32, cy: u32|
        cx < grid_w(img) && cy < grid_h(img) && #[trigger] cell_colors(img, cx, cy) != set![
            PixelColor::Empty,
        ] ==> exists|k: int| 0 <= k < tiles.len() && (#[trigger] tiles[k]).x == cx && tiles[k].y
            == cy
}

/// Whether some tile of the list sits at the given grid coordinate.
pub open spec fn has_coords(tiles: Seq<Tile>, cx: u32, cy: u32) -> bool {
    exists|k: int| 0 <= k < tiles.len() && (#[trigger] tiles[k]).x == cx && tiles[k].y == cy
}

/// A tile as plain values: its coordinate and its color vector.
pub open spec fn tile_view(t: Tile) -> (u32, u32, Seq<PixelColor>) {
    (t.x, t.y, t.colors@)
}

/// A tile list as plain values.
pub open spec fn tiles_view(tiles: Seq<Tile>) -> Seq<(u32, u32, Seq<PixelColor>)> {
    tiles.map_values(|t: Tile| tile_view(t))
}

/// Two tile lists in strict column-major order, whose tiles are each
/// determined by their cell and which cover the same coordinates, are the
/// same list.
proof fn lemma_lex_sorted_tiles_unique(img: image::DynamicImage, t1: Seq<Tile>, t2: Seq<Tile>)
    requires
        forall|k: int|
            0 <= k < t1.len() ==> ((#[trigger] t1[k]).wf() && t1[k].color_set() == cell_colors(
                img,
                t1[k].x,
                t1[k].y,
            )),
        forall|k: int|
            0 <= k < t2.len() ==> ((#[trigger] t2[k]).wf() && t2[k].color_set() == cell_colors(
                img,
                t2[k].x,
                t2[k].y,
            )),
        forall|k1: int, k2: int|
            0 <= k1 < k2 < t1.len() ==> tile_lex_before(#[trigger] t1[k1], #[trigger] t1[k2]),
        forall|k1: int, k2: int|
            0 <= k1 < k2 < t2.len() ==> tile_lex_before(#[trigger] t2[k1], #[trigger] t2[k2]),
        forall|cx: u32, cy: u32| #[trigger] has_coords(t1, cx, cy) <==> has_coords(t2, cx, cy),
    ensures
        tiles_view(t1) == tiles_view(t2),
    decreases t1.len(),
{
    if t1.len() == 0 {
        if t2.len() > 0 {
            assert(has_coords(t2, t2[0].x, t2[0].y));
            assert(has_coords(t1, t2[0].x, t2[0].y));
            assert(false);
        }
        assert(tiles_view(t1) =~= tiles_view(t2));
    } else if t2.len() == 0 {
        assert(has_coords(t1, t1[0].x, t1[0].y));
        assert(has_coords(t2, t1[0].x, t1[0].y));
        assert(false);
    } else {
        // each head sits at the lexicographically first covered cell
        assert(has_coords(t1, t1[0].x, t1[0].y));
        assert(has_coords(t2, t1[0].x, t1[0].y));
        let j = choose|j: int| 0 <= j < t2.len() && (#[trigger] t2[j]).x == t1[0].x && t2[j].y
            == t1[0].y;
        assert(has_coords(t2, t2[0].x, t2[0].y));
        assert(has_coords(t1, t2[0].x, t2[0].y));
        let i = choose|i: int| 0 <= i < t1.len() && (#[trigger] t1[i]).x == t2[0].x && t1[i].y
            == t2[0].y;
        if j > 0 {
            assert(tile_lex_before(t2[0], t2[j]));
        }
        if i > 0 {
            assert(tile_lex_before(t1[0], t1[i]));
        }
        assert(t1[0].x == t2[0].x && t1[0].y == t2[0].y);
        // equal cells carry equal colors, so the heads are the same tile
        crate::colorset::lemma_sorted_colors_unique(t1[0].colors@, t2[0].colors@);
        assert(tile_view(t1[0]) == tile_view(t2[0]));
        // the tails cover the same cells, the head's excluded by strictness
        let r1 = t1.drop_first();
        let r2 = t2.drop_first();
        assert(forall|m: int| 0 <= m < r1.len() ==> #[trigger] r1[m] == t1[m + 1]);
        assert(forall|m: int| 0 <= m < r2.len() ==> #[trigger] r2[m] == t2[m + 1]);
        assert forall|cx: u32, cy: u32| #[trigger] has_coords(r1, cx, cy) <==> has_coords(
            r2,
            cx,
            cy,
        ) by {
            if has_coords(r1, cx, cy) {
                let m = choose|m: int| 0 <= m < r1.len() && (#[trigger] r1[m]).x == cx
                    && r1[m].y == cy;
                assert(t1[m + 1].x == cx && t1[m + 1].y == cy);
                assert(has_coords(t1, cx, cy));
                assert(tile_lex_before(t1[0], t1[m + 1]));
                let n = choose|n: int| 0 <= n < t2.len() && (#[trigger] t2[n]).x == cx
                    && t2[n].y == cy;
                assert(n != 0);
                assert(r2[n - 1].x == cx && r2[n - 1].y == cy);
                assert(has_coords(r2, cx, cy));
            }
            if has_coords(r2, cx, cy) {
                let m = choose|m: int| 0 <= m < r2.len() && (#[trigger] r2[m]).x == cx
                    && r2[m].y == cy;
                assert(t2[m + 1].x == cx && t2[m + 1].y == cy);
                assert(has_coords(t2, cx, cy));
                assert(has_coords(t1, cx, cy));
                assert(tile_lex_before(t2[0], t2[m + 1]));
                let n = choose|n: int| 0 <= n < t1.len() && (#[trigger] t1[n]).x == cx
                    && t1[n].y == cy;
                assert(n != 0);
                assert(r1[n - 1].x == cx && r1[n - 1].y == cy);
                assert(has_coords(r1, cx, cy));
            }
        }
        lemma_lex_sorted_tiles_unique(img, r1, r2);
        assert(tiles_view(r1) =~= tiles_view(t1).drop_first());
        assert(tiles_view(r2) =~= tiles_view(t2).drop_first());
        assert(tiles_view(t1).len() == tiles_view(t2).len());
        assert forall|n: int| 0 <= n < tiles_view(t1).len() implies tiles_view(t1)[n]
            == tiles_view(t2)[n] by {
            if n == 0 {
                assert(tiles_view(t1)[0] == tile_view(t1[0]));
                assert(tiles_view(t2)[0] == tile_view(t2[0]));
            } else {
                assert(tiles_view(t1)[n] == tiles_view(t1).drop_first()[n - 1]);
                assert(tiles_view(t2)[n] == tiles_view(t2).drop_first()[n - 1]);
            }
        }
        assert(tiles_view(t1) =~= tiles_view(t2));
    }
}

/// The image's tile list is unique: any two lists the characterization
/// admits agree in every coordinate and color, so tiling, like the
/// grouping built on it, is a function of the image alone.
pub proof fn lemma_tiles_of_image_unique(img: image::DynamicImage, t1: Seq<Tile>, t2: Seq<Tile>)
    requires
        tiles_of_image(img, t1),
        tiles_of_image(img, t2),
    ensures
        tiles_view(t1) == tiles_view(t2),
{
    assert forall|cx: u32, cy: u32| #[trigger] has_coords(t1, cx, cy) <==> has_coords(
        t2,
        cx,
        cy,
    ) by {
        if has_coords(t1, cx, cy) {
            let k = choose|k: int| 0 <= k < t1.len() && (#[trigger] t1[k]).x == cx && t1[k].y
                == cy;
            assert(cell_colors(img, cx, cy) != set![PixelColor::Empty]);
        }
        if has_coords(t2, cx, cy) {
            let k = choose|k: int| 0 <= k < t2.len() && (#[trigger] t2[k]).x == cx && t2[k].y
                == cy;
            assert(cell_colors(img, cx, cy) != set![PixelColor::Empty]);
        }
    }
    lemma_lex_sorted_tiles_unique(img, t1, t2);
}

/// At most one kind of stop can describe a cell, and a cell that reads
/// cleanly to the end admits neither.
proof fn lemma_cell_failures_exclusive(img: image::DynamicImage, x: u32, y: u32)
    ensures
        !(cell_read_fails(img, x, y) && cell_alpha_fails(img, x, y)),
        cell_prefix_clean(img, x, y, (TILE_SIZE * TILE_SIZE) as int) ==> !cell_read_fails(
            img,
            x,
            y,
        ) && !cell_alpha_fails(img, x, y),
{
    let total = (TILE_SIZE * TILE_SIZE) as int;
    if cell_read_fails(img, x, y) && cell_alpha_fails(img, x, y) {
        let k1 = choose|k1: int|
            0 <= k1 < total && !cell_pixel_in_bounds(img, x, y, k1) && #[trigger] cell_prefix_clean(
                img,
                x,
                y,
                k1,
            );
        let k2 = choose|k2: int|
            0 <= k2 < total && cell_pixel_in_bounds(img, x, y, k2) && !spec_pixel_alpha_ok(
                cell_pixel(img, x, y, k2),
            ) && #[trigger] cell_prefix_clean(img, x, y, k2);
        if k1 <= k2 {
            assert(cell_pixel_in_bounds(img, x, y, k1));
        } else {
            assert(spec_pixel_alpha_ok(cell_pixel(img, x, y, k2)));
        }
    }
    if cell_prefix_clean(img, x, y, total) {
        if cell_read_fails(img, x, y) {
            let k1 = choose|k1: int|
                0 <= k1 < total && !cell_pixel_in_bounds(img, x, y, k1)
                    && #[trigger] cell_prefix_clean(img, x, y, k1);
            assert(cell_pixel_in_bounds(img, x, y, k1));
        }
        if cell_alpha_fails(img, x, y) {
            let k2 = choose|k2: int|
                0 <= k2 < total && cell_pixel_in_bounds(img, x, y, k2) && !spec_pixel_alpha_ok(
                    cell_pixel(img, x, y, k2),
                ) && #[trigger] cell_prefix_clean(img, x, y, k2);
            assert(spec_pixel_alpha_ok(cell_pixel(img, x, y, k2)));
        }
    }
}

/// The tile grid implied by the image dimensions: fails exactly when
/// either dimension is not a multiple of the tile size, and otherwise
/// yields the grid's width and height in tiles.
pub fn get_tile_dimensions(width: u32, height: u32) -> (r: Result<(u32, u32), InputError>)
    ensures
        r is Ok <==> (width % TILE_SIZE == 0 && height % TILE_SIZE == 0),
        r matches Ok(d) ==> d.0 == width / TILE_SIZE && d.1 == height / TILE_SIZE,
        r matches Err(e) ==> e == InputError::UnalignedDimensions,
{
    if width % TILE_SIZE != 0 || height % TILE_SIZE != 0 {
        return Err(InputError::UnalignedDimensions);
    }
    Ok((width / TILE_SIZE, height / TILE_SIZE))
}

impl Tile {
    /// Reads the square pixel cell at tile coordinate (x, y) of the image
    /// and builds the tile holding that cell's distinct colors. Succeeds
    /// exactly when the whole cell lies inside the image, every pixel's
    /// alpha is admissible and the cell's distinct colors fit the budget;
    /// each error names the first condition the cell read trips on.
    pub fn new(img: &image::DynamicImage, x: u32, y: u32) -> (r: Result<Tile, InputError>)
        requires
            x < 0x0FFF_FFFFu32,
            y < 0x0FFF_FFFFu32,
        ensures
            r is Ok <==> cell_clean(*img, x, y),
            r matches Ok(t) ==> t.wf() && t.x == x && t.y == y && t.color_set() == cell_colors(
                *img,
                x,
                y,
            ),
            r == Err::<Tile, InputError>(InputError::MissingPixel) <==> cell_read_fails(*img, x, y),
            r == Err::<Tile, InputError>(InputError::SemitransparentPixel) <==> cell_alpha_fails(*img, x, y),
            r == Err::<Tile, InputError>(InputError::TooManyColors) <==> (cell_prefix_clean(
                *img,
                x,
                y,
                (TILE_SIZE * TILE_SIZE) as int,
            ) && cell_colors(*img, x, y).len() > MAX_COLORS),
            r matches Err(e) ==> (e == InputError::MissingPixel || e
                == InputError::SemitransparentPixel || e == InputError::TooManyColors),
    {
        let ghost total = (TILE_SIZE * TILE_SIZE) as int;
        let mut pixels: Vec<PixelColor> = Vec::new();
        let mut dx: u32 = 0;
        while dx < TILE_SIZE
            invariant
                dx <= TILE_SIZE,
                x < 0x0FFF_FFFFu32,
                y < 0x0FFF_FFFFu32,
                total == (TILE_SIZE * TILE_SIZE) as int,
                pixels@.len() == dx * TILE_SIZE,
                cell_prefix_clean(*img, x, y, pixels@.len() as int),
                forall|j: int|
                    0 <= j < pixels@.len() ==> pixels@[j] == spec_pixel_color(
                        #[trigger] cell_pixel(*img, x, y, j),
                    ),
            decreases TILE_SIZE - dx,
        {
            let mut dy: u32 = 0;
            while dy < TILE_SIZE
                invariant
                    dy <= TILE_SIZE,
                    dx < TILE_SIZE,
                    x < 0x0FFF_FFFFu32,
                    y < 0x0FFF_FFFFu32,
                    total == (TILE_SIZE * TILE_SIZE) as int,
                    pixels@.len() == dx * TILE_SIZE + dy,
                    cell_prefix_clean(*img, x, y, pixels@.len() as int),
                    forall|j: int|
                        0 <= j < pixels@.len() ==> pixels@[j] == spec_pixel_color(
                            #[trigger] cell_pixel(*img, x, y, j),
                        ),
                decreases TILE_SIZE - dy,
            {
                let px = x * TILE_SIZE + dx;
                let py = y * TILE_SIZE + dy;
                let ghost k = pixels@.len() as int;
                proof {
                    assert(k / (TILE_SIZE as int) == dx && k % (TILE_SIZE as int) == dy) by {
                        assert(k == dx * (TILE_SIZE as int) + dy && 0 <= dy < TILE_SIZE as int);
                    }
                    assert(k < total);
                }
                match pixel_rgba(img, px, py) {
                    None => {
                        proof {
                            assert(!cell_pixel_in_bounds(*img, x, y, k));
                            assert(cell_read_fails(*img, x, y));
                            lemma_cell_failures_exclusive(*img, x, y);
                            // a clean full read would contradict the stop at k
                            if cell_prefix_clean(*img, x, y, total) {
                                assert(cell_pixel_in_bounds(*img, x, y, k));
                            }
                        }
                        return Err(InputError::MissingPixel);
                    },
                    Some((r, g, b, a)) => {
                        proof {
                            assert(cell_pixel_in_bounds(*img, x, y, k));
                            assert((r, g, b, a) == cell_pixel(*img, x, y, k));
                        }
                        if a != 0 && a != 255 {
                            proof {
                                assert(!spec_pixel_alpha_ok(cell_pixel(*img, x, y, k)));
                                assert(cell_alpha_fails(*img, x, y));
                                lemma_cell_failures_exclusive(*img, x, y);
                                if cell_prefix_clean(*img, x, y, total) {
                                    assert(spec_pixel_alpha_ok(cell_pixel(*img, x, y, k)));
                                }
                            }
                            return Err(InputError::SemitransparentPixel);
                        }
                        pixels.push(PixelColor::new(r, g, b, a));
                        proof {
                            assert(pixels@[k] == spec_pixel_color(cell_pixel(*img, x, y, k)));
                            assert forall|j: int|
                                0 <= j < pixels@.len() implies cell_pixel_in_bounds(*img, x, y, j)
                                && spec_pixel_alpha_ok(#[trigger] cell_pixel(*img, x, y, j)) by {
                                if j < k {
                                    assert(cell_prefix_clean(*img, x, y, k));
                                }
                            }
                        }
                    },
                }
                dy += 1;
            }
            dx += 1;
        }
        proof {
            assert(pixels@.len() == total);
            assert(pixels@ =~= cell_color_seq(*img, x, y));
            lemma_cell_failures_exclusive(*img, x, y);
        }
        match Tile::from_pixel_colors(x, y, &pixels) {
            Ok(t) => Ok(t),
            Err(()) => Err(InputError::TooManyColors),
        }
    }
}

/// Cuts the image into its tile grid, walking columns outermost as the
/// grid is enumerated, builds one tile per cell and drops the blank ones
/// (cells whose only color is the transparent one). Succeeds exactly when
/// the dimensions are aligned and every cell is clean, and then yields the
/// image's one tile list: one tile per non-blank cell, in column-major
/// order, each holding its cell's distinct colors.
pub fn create_tiles(img: &image::DynamicImage) -> (r: Result<Vec<Tile>, InputError>)
    ensures
        r is Ok <==> image_clean(*img),
        r matches Ok(tiles) ==> tiles_of_image(*img, tiles@),
        r == Err::<Vec<Tile>, InputError>(InputError::UnalignedDimensions) <==> !dims_aligned(
            *img,
        ),
        (r matches Err(e) && e != InputError::UnalignedDimensions) ==> (dims_aligned(*img)
            && exists|cx: u32, cy: u32|
            cx < grid_w(*img) && cy < grid_h(*img) && !(#[trigger] cell_clean(*img, cx, cy))),
{
    let dims = image_dimensions(img);
    let (tw, th) = match get_tile_dimensions(dims.0, dims.1) {
        Ok(d) => d,
        Err(e) => {
            return Err(e);
        },
    };
    let mut tiles: Vec<Tile> = Vec::new();
    let mut x: u32 = 0;
    while x < tw
        invariant
            x <= tw,
            tw <= 0x0FFF_FFFFu32,
            th <= 0x0FFF_FFFFu32,
            tw == grid_w(*img),
            th == grid_h(*img),
            dims_aligned(*img),
            forall|cx: u32, cy: u32|
                cx < x && cy < th ==> #[trigger] cell_clean(*img, cx, cy),
            forall|k: int|
                0 <= k < tiles@.len() ==> ((#[trigger] tiles@[k]).wf() && tiles@[k].x < tw
                    && tiles@[k].y < th && tiles@[k].color_set() == cell_colors(
                    *img,
                    tiles@[k].x,
                    tiles@[k].y,
                ) && tiles@[k].color_set() != set![PixelColor::Empty]),
            forall|k: int| 0 <= k < tiles@.len() ==> (#[trigger] tiles@[k]).x < x,
            forall|k1: int, k2: int|
                0 <= k1 < k2 < tiles@.len() ==> tile_lex_before(
                    #[trigger] tiles@[k1],
                    #[trigger] tiles@[k2],
                ),
            forall|cx: u32, cy: u32|
                cx < x && cy < th && #[trigger] cell_colors(*img, cx, cy) != set![
                    PixelColor::Empty,
                ] ==> exists|k: int|
                    0 <= k < tiles@.len() && (#[trigger] tiles@[k]).x == cx && tiles@[k].y == cy,
        decreases tw - x,
    {
        let mut y: u32 = 0;
        while y < th
            invariant
                y <= th,
                x < tw,
                tw <= 0x0FFF_FFFFu32,
                th <= 0x0FFF_FFFFu32,
                tw == grid_w(*img),
                th == grid_h(*img),
                dims_aligned(*img),
                forall|cx: u32, cy: u32|
                    (cx < x && cy < th) || (cx == x && cy < y) ==> #[trigger] cell_clean(
                        *img,
                        cx,
                        cy,
                    ),
                forall|k: int|
                    0 <= k < tiles@.len() ==> ((#[trigger] tiles@[k]).wf() && tiles@[k].x < tw
                        && tiles@[k].y < th && tiles@[k].color_set() == cell_colors(
                        *img,
                        tiles@[k].x,
                        tiles@[k].y,
                    ) && tiles@[k].color_set() != set![PixelColor::Empty]),
                forall|k: int|
                    0 <= k < tiles@.len() ==> (#[trigger] tiles@[k]).x < x || (tiles@[k].x == x
                        && tiles@[k].y < y),
                forall|k1: int, k2: int|
                    0 <= k1 < k2 < tiles@.len() ==> tile_lex_before(
                        #[trigger] tiles@[k1],
                        #[trigger] tiles@[k2],
                    ),
                forall|cx: u32, cy: u32|
                    ((cx < x && cy < th) || (cx == x && cy < y)) && #[trigger] cell_colors(
                        *img,
                        cx,
                        cy,
                    ) != set![PixelColor::Empty] ==> exists|k: int|
                        0 <= k < tiles@.len() && (#[trigger] tiles@[k]).x == cx && tiles@[k].y
                            == cy,
            decreases th - y,
        {
            let tile = match Tile::new(img, x, y) {
                Ok(t) => t,
                Err(e) => {
                    proof {
                        assert(!cell_clean(*img, x, y));
                        assert(!image_clean(*img));
                    }
                    return Err(e);
                },
            };
            if !tile.is_empty() {
                let ghost old_tiles = tiles@;
                tiles.push(tile);
                proof {
                    assert(tiles@[tiles@.len() - 1] == tile);
                    assert forall|cx: u32, cy: u32|
                        (((cx < x && cy < th) || (cx == x && cy < y + 1)) && #[trigger] cell_colors(
                            *img,
                            cx,
                            cy,
                        ) != set![PixelColor::Empty]) implies exists|k: int|
                        0 <= k < tiles@.len() && (#[trigger] tiles@[k]).x == cx && tiles@[k].y
                            == cy by {
                        if cx == x && cy == y {
                            assert(tiles@[tiles@.len() - 1].x == cx && tiles@[tiles@.len()
                                - 1].y == cy);
                        } else {
                            let k0 = choose|k0: int|
                                0 <= k0 < old_tiles.len() && (#[trigger] old_tiles[k0]).x == cx
                                    && old_tiles[k0].y == cy;
                            assert(tiles@[k0].x == cx && tiles@[k0].y == cy);
                        }
                    }
                }
            } else {
                proof {
                    assert(cell_colors(*img, x, y) =~= set![PixelColor::Empty]);
                }
            }
            y += 1;
        }
        x += 1;
    }
    Ok(tiles)
}

/// The whole pipeline on a decoded image: tiles, the sorted candidate
/// table, then the greedy group formation. It succeeds exactly when the
/// image is fit for tiling, and then hands back the image's one tile list
/// and the groups over it: every group within the color budget, every
/// tile in some group, no tile absorbed twice, only candidates with a
/// positive score absorbed, groups in seed order, and the whole grouping
/// equal to its mathematical model — a function of the image alone.
pub fn run(img: &image::DynamicImage) -> (r: Result<(Vec<Tile>, Vec<Group>), InputError>)
    ensures
        r is Ok <==> image_clean(*img),
        r == Err::<(Vec<Tile>, Vec<Group>), InputError>(InputError::UnalignedDimensions)
            <==> !dims_aligned(*img),
        (r matches Err(e) && e != InputError::UnalignedDimensions) ==> (dims_aligned(*img)
            && exists|cx: u32, cy: u32|
            cx < grid_w(*img) && cy < grid_h(*img) && !(#[trigger] cell_clean(*img, cx, cy))),
        r matches Ok(out) ==> {
            &&& tiles_of_image(*img, out.0@)
            &&& forall|g: int| 0 <= g < out.1@.len() ==> group_ok(#[trigger] out.1@[g], out.0@)
            &&& forall|g: int| 0 <= g < out.1@.len() ==> (#[trigger] out.1@[g]).inv()
            &&& forall|j: usize|
                j < out.0@.len() ==> absorbed_in(out.1@, j) || is_seed(out.1@, j)
            &&& absorbed_once(out.1@)
            &&& forall|g1: int, g2: int|
                0 <= g1 < g2 < out.1@.len() ==> (#[trigger] out.1@[g1]).tiles@[0]
                    < (#[trigger] out.1@[g2]).tiles@[0]
            &&& groups_view(out.1@) == spec_formation(out.0@, spec_canonical_table(out.0@))
        },
{
    let tiles = match create_tiles(img) {
        Ok(t) => t,
        Err(e) => {
            return Err(e);
        },
    };
    let table = create_candidate_table(&tiles);
    let groups = create_groups(&tiles, &table);
    Ok((tiles, groups))
}

} // verus!
