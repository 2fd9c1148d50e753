use vstd::prelude::*;

use crate::colorset::{
    color_set_insert, color_set_union, count_common, lemma_sorted_len_is_set_len, sorted_colors,
};
use crate::pixel::PixelColor;

verus! {

/// The palette budget: the most distinct colors a single tile, or a whole
/// group of tiles, may hold.
pub const MAX_COLORS: usize = 16;

/// The side of a tile, in pixels.
pub const TILE_SIZE: u32 = 16;

/// One fixed-size cell of the source image: its (column, row) coordinate in
/// the tile grid and the set of distinct colors of its pixels, kept as a
/// strictly sorted vector. Two tiles are the same tile exactly when their
/// coordinates agree.
#[derive(Debug)]
pub struct Tile {
    pub x: u32,
    pub y: u32,
    pub colors: Vec<PixelColor>,
}

/// Tile equality is coordinate identity alone, never pixel content: it
/// exists to tell a tile from itself in another place of the grid.
impl PartialEq for Tile {
    fn eq(&self, other: &Tile) -> (r: bool) {
        self.x == other.x && self.y == other.y
    }
}

impl vstd::std_specs::cmp::PartialEqSpecImpl for Tile {
    open spec fn obeys_eq_spec() -> bool {
        true
    }

    open spec fn eq_spec(&self, other: &Tile) -> bool {
        self.x == other.x && self.y == other.y
    }
}

impl Tile {
    /// The tile's color set, as a mathematical set.
    pub open spec fn color_set(self) -> Set<PixelColor> {
        self.colors@.to_set()
    }

    /// Well-formed: the color vector is strictly sorted (so free of
    /// duplicates) and within the palette budget.
    pub open spec fn wf(self) -> bool {
        &&& sorted_colors(self.colors@)
        &&& self.colors@.len() <= MAX_COLORS
    }

    /// Whether two tiles are the same tile: identity is by coordinate alone.
    pub open spec fn same_coords(self, other: Tile) -> bool {
        self.x == other.x && self.y == other.y
    }

    /// Builds a tile from the colors of its pixels, in any order and with
    /// any repetition. Fails exactly when the pixels hold more distinct
    /// colors than the palette budget allows.
    pub fn from_pixel_colors(x: u32, y: u32, pixels: &Vec<PixelColor>) -> (r: Result<Tile, ()>)
        ensures
            r is Ok <==> pixels@.to_set().len() <= MAX_COLORS,
            r matches Ok(t) ==> t.wf() && t.x == x && t.y == y && t.color_set()
                == pixels@.to_set(),
    {
        let mut colors: Vec<PixelColor> = Vec::new();
        let mut i: usize = 0;
        proof {
            assert(pixels@.take(0).to_set() =~= Set::<PixelColor>::empty());
        }
        while i < pixels.len()
            invariant
                0 <= i <= pixels@.len(),
                sorted_colors(colors@),
                colors@.to_set() == pixels@.take(i as int).to_set(),
                colors@.len() <= i,
            decreases pixels@.len() - i,
        {
            color_set_insert(&mut colors, pixels[i]);
            proof {
                assert(pixels@.take(i + 1) =~= pixels@.take(i as int).push(pixels@[i as int]));
                pixels@.take(i as int).lemma_push_to_set_commute(pixels@[i as int]);
            }
            i += 1;
        }
        proof {
            assert(pixels@.take(pixels@.len() as int) =~= pixels@);
            lemma_sorted_len_is_set_len(colors@);
        }
        if colors.len() > MAX_COLORS {
            return Err(());
        }
        Ok(Tile { x, y, colors })
    }

    /// Whether the tile is blank: its only color is the transparent one.
    pub fn is_empty(&self) -> (r: bool)
        requires
            self.wf(),
        ensures
            r <==> self.color_set() =~= set![PixelColor::Empty],
    {
        let r = self.colors.len() == 1 && matches!(self.colors[0], PixelColor::Empty);
        proof {
            if r {
                assert(self.colors@.contains(PixelColor::Empty));
                assert forall|c: PixelColor| self.color_set().contains(c) implies c
                    == PixelColor::Empty by {
                    let k = choose|k: int| 0 <= k < self.colors@.len() && self.colors@[k] == c;
                }
                assert(self.color_set() =~= set![PixelColor::Empty]);
            } else {
                lemma_sorted_len_is_set_len(self.colors@);
                if self.color_set() =~= set![PixelColor::Empty] {
                    assert(set![PixelColor::Empty].len() == 1) by {
                        assert(set![PixelColor::Empty]
                            =~= Set::<PixelColor>::empty().insert(PixelColor::Empty));
                        broadcast use vstd::set::axiom_set_empty_len;
                        broadcast use vstd::set::axiom_set_insert_len;

                    }
                    assert(self.colors@.len() == 1);
                    assert(self.colors@.contains(self.colors@[0]));
                    assert(self.color_set().contains(self.colors@[0]));
                    assert(false);
                }
            }
        }
        r
    }

    /// The tile's distinct colors, strictly sorted by the packed encoding.
    pub fn colors(&self) -> (r: &Vec<PixelColor>)
        ensures
            r@ == self.colors@,
    {
        &self.colors
    }

    /// The pairwise compatibility score, exactly as `spec_compat` states it:
    /// zero for a tile against itself, zero when the union of the two color
    /// sets breaks the budget, and otherwise the number of shared colors.
    pub fn compat(&self, other: &Tile) -> (score: usize)
        requires
            self.wf(),
            other.wf(),
        ensures
            score == spec_compat(*self, *other),
    {
        if self.x == other.x && self.y == other.y {
            return 0;
        }
        let union = color_set_union(&self.colors, &other.colors);
        if union.len() > MAX_COLORS {
            return 0;
        }
        proof {
            vstd::set_lib::lemma_len_intersect(
                self.colors@.to_set(),
                other.colors@.to_set(),
            );
            lemma_sorted_len_is_set_len(self.colors@);
        }
        count_common(&self.colors, &other.colors)
    }
}

/// The compatibility score of two tiles: zero when they are the same tile
/// (by coordinate identity); zero when the union of their color sets
/// exceeds the palette budget, since no group could ever hold both; and
/// otherwise the number of colors they share.
pub open spec fn spec_compat(a: Tile, b: Tile) -> nat {
    if a.same_coords(b) {
        0
    } else if a.color_set().union(b.color_set()).len() > MAX_COLORS {
        0
    } else {
        a.color_set().intersect(b.color_set()).len()
    }
}

/// Compatibility is symmetric: the score never depends on the order of the
/// two tiles.
pub proof fn lemma_compat_symmetric(a: Tile, b: Tile)
    ensures
        spec_compat(a, b) == spec_compat(b, a),
{
    assert(a.color_set().union(b.color_set()) =~= b.color_set().union(a.color_set()));
    assert(a.color_set().intersect(b.color_set()) =~= b.color_set().intersect(a.color_set()));
}

/// A tile scores zero against itself: it never pairs with itself.
pub proof fn lemma_compat_self(a: Tile)
    ensures
        spec_compat(a, a) == 0,
{
}

} // verus!
