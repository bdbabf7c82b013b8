//! The grid: a rectangular map of tiles together with the mine count, the
//! randomized mine-placement algorithm and the neighbor-counting algorithm.
//!
//! The map is created empty, then mutated exactly once by mine placement
//! (`set_bombs` or `with_mines`), and is immutable afterwards. Placement works
//! in two passes: first every mine is placed, then every non-mine cell is
//! classified by the number of its neighboring mines — neighbor counts depend
//! on the final mine layout, not a partial one.

use vstd::prelude::*;

use crate::coordinates::{sat_component, Coordinates};
use crate::rng::sample_below;
use crate::tile::Tile;

verus! {

// ---------------------------------------------------------------------------
// The 8 neighbor offsets, in a fixed order:
//
//    *--------*-------*-------*
//    | -1, 1  | 0, 1  | 1, 1  |
//    |--------|-------|-------|
//    | -1, 0  | tile  | 1, 0  |
//    |--------|-------|-------|
//    | -1, -1 | 0, -1 | 1, -1 |
//    *--------*-------*-------*
// ---------------------------------------------------------------------------

/// Column delta of the `k`-th neighbor offset.
pub open spec fn offset_dx(k: int) -> int {
    if k == 0 { -1 } else if k == 1 { 0 } else if k == 2 { 1 }
    else if k == 3 { -1 } else if k == 4 { 1 }
    else if k == 5 { -1 } else if k == 6 { 0 } else { 1 }
}

/// Row delta of the `k`-th neighbor offset.
pub open spec fn offset_dy(k: int) -> int {
    if k == 0 { -1 } else if k == 1 { -1 } else if k == 2 { -1 }
    else if k == 3 { 0 } else if k == 4 { 0 }
    else { 1 }
}

/// The `k`-th of the 8 fixed neighbor offsets.
fn offset_at(k: usize) -> (r: (i8, i8))
    requires
        k < 8,
    ensures
        r.0 as int == offset_dx(k as int),
        r.1 as int == offset_dy(k as int),
{
    if k == 0 { (-1, -1) } else if k == 1 { (0, -1) } else if k == 2 { (1, -1) }
    else if k == 3 { (-1, 0) } else if k == 4 { (1, 0) }
    else if k == 5 { (-1, 1) } else if k == 6 { (0, 1) } else { (1, 1) }
}

// ---------------------------------------------------------------------------
// Spec-level view of a grid: a row-major sequence of tiles of length
// `width * height`, the cell `(x, y)` at flat index `y * width + x`.
// ---------------------------------------------------------------------------

/// The tile of cell `(x, y)` in a row-major grid of the given width.
pub open spec fn tile_of(s: Seq<Tile>, w: int, x: int, y: int) -> Tile {
    s[y * w + x]
}

/// Whether cell `(x, y)` holds a mine; false for any out-of-bounds cell.
pub open spec fn mine_at(s: Seq<Tile>, w: int, h: int, x: int, y: int) -> bool {
    0 <= x < w && 0 <= y < h && tile_of(s, w, x, y) is Mine
}

/// Number of mines among the first `upto` cells of the grid.
pub open spec fn count_mines_upto(s: Seq<Tile>, upto: int) -> int
    decreases upto,
{
    if upto <= 0 {
        0
    } else {
        count_mines_upto(s, upto - 1) + if s[upto - 1] is Mine { 1int } else { 0 }
    }
}

/// Number of mines in the whole grid.
pub open spec fn count_mines(s: Seq<Tile>) -> int {
    count_mines_upto(s, s.len() as int)
}

/// Number of `Empty` tiles among the first `upto` cells of the grid.
pub open spec fn count_empty_upto(s: Seq<Tile>, upto: int) -> int
    decreases upto,
{
    if upto <= 0 {
        0
    } else {
        count_empty_upto(s, upto - 1) + if s[upto - 1] is Empty { 1int } else { 0 }
    }
}

/// Number of `Empty` tiles in the whole grid.
pub open spec fn count_empty(s: Seq<Tile>) -> int {
    count_empty_upto(s, s.len() as int)
}

/// Number of the first `k` neighbor offsets of `(x, y)` that, applied with
/// saturation, land on a mine. Off-grid neighbors count as non-mines. At the
/// grid border, saturation can make several offsets land on one and the same
/// cell (or on `(x, y)` itself); each such offset counts separately.
pub open spec fn adj_mines_upto(s: Seq<Tile>, w: int, h: int, x: int, y: int, k: int) -> int
    decreases k,
{
    if k <= 0 {
        0
    } else {
        adj_mines_upto(s, w, h, x, y, k - 1)
            + if mine_at(
            s,
            w,
            h,
            sat_component(x, offset_dx(k - 1)),
            sat_component(y, offset_dy(k - 1)),
        ) {
            1int
        } else {
            0
        }
    }
}

/// Number of the 8 neighbor offsets of `(x, y)` that land on a mine.
pub open spec fn adjacent_mines(s: Seq<Tile>, w: int, h: int, x: int, y: int) -> int {
    adj_mines_upto(s, w, h, x, y, 8)
}

/// The tile a non-mine cell with `n` adjacent mines must carry.
pub open spec fn classify(n: int) -> Tile {
    if n == 0 {
        Tile::Empty
    } else {
        Tile::MineNeighbor(n as u8)
    }
}

/// Every non-mine cell carries exactly the classification that its adjacent
/// mine count demands.
pub open spec fn classified(s: Seq<Tile>, w: int, h: int) -> bool {
    forall|x: int, y: int|
        0 <= x < w && 0 <= y < h && !(#[trigger] tile_of(s, w, x, y) is Mine) ==> tile_of(
            s,
            w,
            x,
            y,
        ) == classify(adjacent_mines(s, w, h, x, y))
}

/// Flat index of the first `Empty` tile at or after position `i`, in row-major
/// scan order; the grid length when there is none.
pub open spec fn first_empty_from(s: Seq<Tile>, i: int) -> int
    decreases s.len() - i,
{
    if i < 0 || i >= s.len() {
        s.len() as int
    } else if s[i] is Empty {
        i
    } else {
        first_empty_from(s, i + 1)
    }
}

/// The coordinate the `k`-th neighbor offset of `c` lands on, applied with
/// saturating addition.
pub open spec fn sat_neighbor(c: Coordinates, k: int) -> Coordinates {
    Coordinates {
        coord_x: sat_component(c.coord_x as int, offset_dx(k)) as u16,
        coord_y: sat_component(c.coord_y as int, offset_dy(k)) as u16,
    }
}

/// Whether one of the first `n` listed coordinates names the cell `(x, y)`.
pub open spec fn mine_listed(mines: Seq<Coordinates>, n: int, x: int, y: int) -> bool {
    exists|k: int|
        0 <= k < n && (#[trigger] mines[k]).coord_x == x && mines[k].coord_y == y
}

/// Whether cell `(x2, y2)` comes before position `(x, y)` in row-major scan
/// order (row 0 upward, column 0 rightward).
pub open spec fn cell_scanned(x2: int, y2: int, x: int, y: int) -> bool {
    y2 < y || (y2 == y && x2 < x)
}

// ---------------------------------------------------------------------------
// Counting lemmas.
// ---------------------------------------------------------------------------

/// Two grids whose cells agree on being mines below `upto` have the same mine
/// count there.
pub proof fn lemma_count_mines_pointwise(s1: Seq<Tile>, s2: Seq<Tile>, upto: int)
    requires
        forall|j: int| 0 <= j < upto ==> ((#[trigger] s1[j]) is Mine <==> s2[j] is Mine),
    ensures
        count_mines_upto(s1, upto) == count_mines_upto(s2, upto),
    decreases upto,
{
    if upto > 0 {
        lemma_count_mines_pointwise(s1, s2, upto - 1);
    }
}

/// Updating one cell changes a prefix mine count exactly by the difference of
/// the two indicator values, and only when the cell lies inside the prefix.
pub proof fn lemma_count_mines_update(s: Seq<Tile>, i: int, t: Tile, upto: int)
    requires
        0 <= i < s.len(),
        0 <= upto <= s.len(),
    ensures
        count_mines_upto(s.update(i, t), upto) == count_mines_upto(s, upto) + if i < upto {
            (if t is Mine { 1int } else { 0 }) - (if s[i] is Mine { 1int } else { 0 })
        } else {
            0
        },
    decreases upto,
{
    if upto > 0 {
        lemma_count_mines_update(s, i, t, upto - 1);
    }
}

/// The empty-count analogue of `lemma_count_mines_update`.
pub proof fn lemma_count_empty_update(s: Seq<Tile>, i: int, t: Tile, upto: int)
    requires
        0 <= i < s.len(),
        0 <= upto <= s.len(),
    ensures
        count_empty_upto(s.update(i, t), upto) == count_empty_upto(s, upto) + if i < upto {
            (if t is Empty { 1int } else { 0 }) - (if s[i] is Empty { 1int } else { 0 })
        } else {
            0
        },
    decreases upto,
{
    if upto > 0 {
        lemma_count_empty_update(s, i, t, upto - 1);
    }
}

/// In a prefix where every tile is either `Empty` or `Mine`, the two counts
/// partition the prefix.
pub proof fn lemma_counts_partition(s: Seq<Tile>, upto: int)
    requires
        0 <= upto <= s.len(),
        forall|j: int| 0 <= j < upto ==> ((#[trigger] s[j]) is Empty || s[j] is Mine),
    ensures
        count_mines_upto(s, upto) + count_empty_upto(s, upto) == upto,
    decreases upto,
{
    if upto > 0 {
        lemma_counts_partition(s, upto - 1);
    }
}

/// A grid without any mine below `upto` counts zero mines there.
pub proof fn lemma_count_mines_zero(s: Seq<Tile>, upto: int)
    requires
        forall|j: int| 0 <= j < upto ==> !((#[trigger] s[j]) is Mine),
    ensures
        count_mines_upto(s, upto) == 0,
    decreases upto,
{
    if upto > 0 {
        lemma_count_mines_zero(s, upto - 1);
    }
}

/// An adjacency count over the first `k` offsets lies between 0 and `k`.
pub proof fn lemma_adj_mines_le(s: Seq<Tile>, w: int, h: int, x: int, y: int, k: int)
    requires
        0 <= k,
    ensures
        0 <= adj_mines_upto(s, w, h, x, y, k) <= k,
    decreases k,
{
    if k > 0 {
        lemma_adj_mines_le(s, w, h, x, y, k - 1);
    }
}

/// Two grids with the same mines everywhere give every cell the same
/// adjacency count.
pub proof fn lemma_adj_mines_same(
    s1: Seq<Tile>,
    s2: Seq<Tile>,
    w: int,
    h: int,
    x: int,
    y: int,
    k: int,
)
    requires
        forall|x2: int, y2: int| #[trigger] mine_at(s1, w, h, x2, y2) == mine_at(s2, w, h, x2, y2),
    ensures
        adj_mines_upto(s1, w, h, x, y, k) == adj_mines_upto(s2, w, h, x, y, k),
    decreases k,
{
    if k > 0 {
        lemma_adj_mines_same(s1, s2, w, h, x, y, k - 1);
    }
}

/// A grid without any mine gives every cell the adjacency count zero.
pub proof fn lemma_adj_mines_zero(s: Seq<Tile>, w: int, h: int, x: int, y: int, k: int)
    requires
        forall|x2: int, y2: int| !#[trigger] mine_at(s, w, h, x2, y2),
    ensures
        adj_mines_upto(s, w, h, x, y, k) == 0,
    decreases k,
{
    if k > 0 {
        lemma_adj_mines_zero(s, w, h, x, y, k - 1);
    }
}

/// Distinct in-bounds cells have distinct flat indices.
pub proof fn lemma_flat_index_injective(w: int, x1: int, y1: int, x2: int, y2: int)
    by (nonlinear_arith)
    requires
        0 <= x1 < w,
        0 <= x2 < w,
        0 <= y1,
        0 <= y2,
        y1 * w + x1 == y2 * w + x2,
    ensures
        x1 == x2,
        y1 == y2,
{
}

/// The flat index of an in-bounds cell lies inside the grid.
pub proof fn lemma_flat_index_bounds(w: int, h: int, x: int, y: int)
    by (nonlinear_arith)
    requires
        0 <= x < w,
        0 <= y < h,
    ensures
        0 <= y * w + x < w * h,
{
}

// ---------------------------------------------------------------------------
// The tile map.
// ---------------------------------------------------------------------------

/// A rectangular grid of tiles with its mine count. Cells are stored
/// row-major: cell `(x, y)` lives at flat index `y * width + x`.
#[derive(Debug)]
pub struct TileMap {
    bomb_count: u16,
    height: u16,
    width: u16,
    map: Vec<Tile>,
}

impl TileMap {
    /// The row-major sequence of tiles.
    pub closed spec fn grid(self) -> Seq<Tile> {
        self.map@
    }

    /// The grid width, as a mathematical integer.
    pub closed spec fn spec_width(self) -> int {
        self.width as int
    }

    /// The grid height, as a mathematical integer.
    pub closed spec fn spec_height(self) -> int {
        self.height as int
    }

    /// The recorded mine count, as a mathematical integer.
    pub closed spec fn spec_bomb_count(self) -> int {
        self.bomb_count as int
    }

    /// The backing storage has exactly one tile per cell.
    pub open spec fn dims_ok(self) -> bool {
        &&& self.grid().len() == self.spec_width() * self.spec_height()
        &&& self.spec_width() <= u16::MAX
        &&& self.spec_height() <= u16::MAX
    }

    /// The tile of cell `(x, y)`.
    pub open spec fn tile_at(self, x: int, y: int) -> Tile {
        tile_of(self.grid(), self.spec_width(), x, y)
    }

    /// Whether cell `(x, y)` holds a mine; false out of bounds.
    pub open spec fn spec_mine_at(self, x: int, y: int) -> bool {
        mine_at(self.grid(), self.spec_width(), self.spec_height(), x, y)
    }

    /// Well-formedness: consistent storage, a mine count that matches the
    /// grid, and every non-mine cell classified by its adjacent mine count.
    pub open spec fn wf(self) -> bool {
        &&& self.dims_ok()
        &&& self.spec_bomb_count() == count_mines(self.grid())
        &&& classified(self.grid(), self.spec_width(), self.spec_height())
    }

    /// Allocates a `width x height` grid of `Empty` tiles with zero mines.
    /// Supports `width == 0` or `height == 0` without panicking.
    pub fn empty(width: u16, height: u16) -> (r: TileMap)
        ensures
            r.wf(),
            r.spec_width() == width as int,
            r.spec_height() == height as int,
            r.spec_bomb_count() == 0,
            forall|i: int| 0 <= i < r.grid().len() ==> (#[trigger] r.grid()[i]) is Empty,
            forall|x: int, y: int|
                0 <= x < width as int && 0 <= y < height as int ==> #[trigger] r.tile_at(x, y)
                    is Empty,
    {
        proof {
            assert((width as int) * (height as int) <= 0xffff * 0xffff) by (nonlinear_arith)
                requires
                    width as int <= 0xffff,
                    height as int <= 0xffff,
                    0 <= width as int,
                    0 <= height as int,
            ;
        }
        let n: usize = (width as usize) * (height as usize);
        let map: Vec<Tile> = vec![Tile::Empty; n];
        let r = TileMap { bomb_count: 0, height, width, map };
        proof {
            lemma_count_mines_zero(r.grid(), r.grid().len() as int);
            assert forall|x: int, y: int| !#[trigger] mine_at(
                r.grid(),
                width as int,
                height as int,
                x,
                y,
            ) by {
                if 0 <= x < width as int && 0 <= y < height as int {
                    lemma_flat_index_bounds(width as int, height as int, x, y);
                }
            }
            assert forall|x: int, y: int|
                0 <= x < width as int && 0 <= y < height as int && !(#[trigger] tile_of(
                    r.grid(),
                    width as int,
                    x,
                    y,
                ) is Mine) implies tile_of(r.grid(), width as int, x, y) == classify(
                adjacent_mines(r.grid(), width as int, height as int, x, y),
            ) by {
                lemma_flat_index_bounds(width as int, height as int, x, y);
                lemma_adj_mines_zero(r.grid(), width as int, height as int, x, y, 8);
            }
            assert forall|x: int, y: int|
                0 <= x < width as int && 0 <= y < height as int implies #[trigger] r.tile_at(x, y)
                is Empty by {
                lemma_flat_index_bounds(width as int, height as int, x, y);
            }
        }
        r
    }

    /// The grid width.
    pub fn width(&self) -> (r: u16)
        ensures
            r as int == self.spec_width(),
    {
        self.width
    }

    /// The grid height.
    pub fn height(&self) -> (r: u16)
        ensures
            r as int == self.spec_height(),
    {
        self.height
    }

    /// The recorded mine count.
    pub fn bomb_count(&self) -> (r: u16)
        ensures
            r as int == self.spec_bomb_count(),
    {
        self.bomb_count
    }

    /// The (at most 8 distinct) neighbor coordinates of `coordinates`,
    /// obtained by applying each of the 8 fixed offsets with saturating
    /// addition. Grid bounds are not checked here; lookups on the results are
    /// bounds-safe by themselves.
    pub fn safe_square_at(&self, coordinates: Coordinates) -> (r: Vec<Coordinates>)
        ensures
            r@.len() == 8,
            forall|k: int|
                0 <= k < 8 ==> (#[trigger] r@[k]).coord_x as int == sat_component(
                    coordinates.coord_x as int,
                    offset_dx(k),
                ) && r@[k].coord_y as int == sat_component(coordinates.coord_y as int, offset_dy(k)),
    {
        let mut r: Vec<Coordinates> = Vec::new();
        let mut k: usize = 0;
        while k < 8
            invariant
                k <= 8,
                r@.len() == k as int,
                forall|j: int|
                    0 <= j < k as int ==> (#[trigger] r@[j]).coord_x as int == sat_component(
                        coordinates.coord_x as int,
                        offset_dx(j),
                    ) && r@[j].coord_y as int == sat_component(
                        coordinates.coord_y as int,
                        offset_dy(j),
                    ),
            decreases 8 - k,
        {
            let off = offset_at(k);
            r.push(coordinates.add_offset(off));
            k = k + 1;
        }
        r
    }

    /// The tile at `coordinates`; `None` for an out-of-bounds coordinate.
    pub fn tile(&self, coordinates: Coordinates) -> (r: Option<Tile>)
        requires
            self.dims_ok(),
        ensures
            r == if (coordinates.coord_x as int) < self.spec_width() && (coordinates.coord_y as int)
                < self.spec_height() {
                Some(self.tile_at(coordinates.coord_x as int, coordinates.coord_y as int))
            } else {
                None::<Tile>
            },
    {
        if coordinates.coord_x >= self.width || coordinates.coord_y >= self.height {
            return None;
        }
        let idx = self.flat_index(coordinates.coord_x, coordinates.coord_y);
        Some(self.map[idx])
    }

    /// Whether there is a mine at `coordinates`; false for any out-of-bounds
    /// coordinate rather than failing.
    pub fn is_bomb_at(&self, coordinates: Coordinates) -> (r: bool)
        requires
            self.dims_ok(),
        ensures
            r == self.spec_mine_at(coordinates.coord_x as int, coordinates.coord_y as int),
    {
        if coordinates.coord_x >= self.width || coordinates.coord_y >= self.height {
            return false;
        }
        let idx = self.flat_index(coordinates.coord_x, coordinates.coord_y);
        self.map[idx].is_mine()
    }

    /// The number of the 8 neighbor offsets of `coordinates` that land on a
    /// mine; 0 if `coordinates` itself is a mine.
    pub fn bomb_count_at(&self, coordinates: Coordinates) -> (r: u8)
        requires
            self.dims_ok(),
        ensures
            r as int == if self.spec_mine_at(coordinates.coord_x as int, coordinates.coord_y as int) {
                0int
            } else {
                adjacent_mines(
                    self.grid(),
                    self.spec_width(),
                    self.spec_height(),
                    coordinates.coord_x as int,
                    coordinates.coord_y as int,
                )
            },
    {
        if self.is_bomb_at(coordinates) {
            return 0;
        }
        let mut count: u8 = 0;
        let mut k: usize = 0;
        while k < 8
            invariant
                self.dims_ok(),
                k <= 8,
                count as int == adj_mines_upto(
                    self.grid(),
                    self.spec_width(),
                    self.spec_height(),
                    coordinates.coord_x as int,
                    coordinates.coord_y as int,
                    k as int,
                ),
                count as int <= k as int,
            decreases 8 - k,
        {
            let off = offset_at(k);
            let neighbor = coordinates.add_offset(off);
            if self.is_bomb_at(neighbor) {
                count = count + 1;
            }
            k = k + 1;
        }
        count
    }

    /// Flat row-major index of the first `Empty` tile — the cell the safe
    /// start auto-reveals — or the cell count when no `Empty` tile exists.
    pub fn first_empty_index(&self) -> (r: usize)
        ensures
            r as int == first_empty_from(self.grid(), 0),
    {
        let n = self.map.len();
        let mut i: usize = 0;
        while i < n
            invariant
                i <= n,
                n == self.grid().len(),
                first_empty_from(self.grid(), 0) == first_empty_from(self.grid(), i as int),
            decreases n - i,
        {
            if matches!(self.map[i], Tile::Empty) {
                return i;
            }
            proof {
                assert(first_empty_from(self.grid(), i as int) == first_empty_from(
                    self.grid(),
                    i as int + 1,
                ));
            }
            i = i + 1;
        }
        n
    }

    /// Flat row-major index of the in-bounds cell `(x, y)`.
    pub(crate) fn flat_index(&self, x: u16, y: u16) -> (idx: usize)
        requires
            self.dims_ok(),
            (x as int) < self.spec_width(),
            (y as int) < self.spec_height(),
        ensures
            idx as int == (y as int) * self.spec_width() + (x as int),
            idx < self.grid().len(),
    {
        proof {
            lemma_flat_index_bounds(self.spec_width(), self.spec_height(), x as int, y as int);
            assert((((y as int) * self.spec_width()) + (x as int)) < 0x1_0000_0000)
                by (nonlinear_arith)
                requires
                    0 <= y as int <= 0xffff,
                    0 <= x as int <= 0xffff,
                    0 <= self.spec_width() <= 0xffff,
            ;
        }
        (y as usize) * (self.width as usize) + (x as usize)
    }

    /// Overwrites the tile of the in-bounds cell `(x, y)`.
    fn set_tile(&mut self, x: u16, y: u16, t: Tile)
        requires
            old(self).dims_ok(),
            (x as int) < old(self).spec_width(),
            (y as int) < old(self).spec_height(),
        ensures
            final(self).spec_width() == old(self).spec_width(),
            final(self).spec_height() == old(self).spec_height(),
            final(self).spec_bomb_count() == old(self).spec_bomb_count(),
            final(self).grid() == old(self).grid().update(
                (y as int) * old(self).spec_width() + (x as int),
                t,
            ),
            final(self).dims_ok(),
    {
        let idx = self.flat_index(x, y);
        self.map.set(idx, t);
    }

    /// Turns the `j`-th still-empty cell, counted in row-major scan order,
    /// into a mine.
    fn place_nth_empty(&mut self, j: usize)
        requires
            old(self).dims_ok(),
            (j as int) < count_empty(old(self).grid()),
        ensures
            final(self).dims_ok(),
            final(self).spec_width() == old(self).spec_width(),
            final(self).spec_height() == old(self).spec_height(),
            final(self).spec_bomb_count() == old(self).spec_bomb_count(),
            final(self).grid().len() == old(self).grid().len(),
            count_mines(final(self).grid()) == count_mines(old(self).grid()) + 1,
            count_empty(final(self).grid()) == count_empty(old(self).grid()) - 1,
            forall|i: int|
                0 <= i < final(self).grid().len() ==> (#[trigger] final(self).grid()[i] == old(
                    self,
                ).grid()[i] || (old(self).grid()[i] is Empty && final(self).grid()[i] is Mine)),
            forall|i: int|
                0 <= i < final(self).grid().len() && old(self).grid()[i] is Mine
                    ==> (#[trigger] final(self).grid()[i]) is Mine,
    {
        let n: usize = self.map.len();
        let mut i: usize = 0;
        let mut seen: usize = 0;
        while i < n
            invariant
                self == old(self),
                self.dims_ok(),
                n == self.grid().len(),
                i <= n,
                seen as int == count_empty_upto(self.grid(), i as int),
                seen <= j,
                (j as int) < count_empty(self.grid()),
            decreases n - i,
        {
            let is_empty = matches!(self.map[i], Tile::Empty);
            proof {
                assert(count_empty_upto(self.grid(), i as int + 1) == count_empty_upto(
                    self.grid(),
                    i as int,
                ) + if self.grid()[i as int] is Empty { 1int } else { 0 });
            }
            if is_empty {
                if seen == j {
                    proof {
                        lemma_count_mines_update(
                            self.grid(),
                            i as int,
                            Tile::Mine,
                            self.grid().len() as int,
                        );
                        lemma_count_empty_update(
                            self.grid(),
                            i as int,
                            Tile::Mine,
                            self.grid().len() as int,
                        );
                    }
                    self.map.set(i, Tile::Mine);
                    return;
                }
                seen = seen + 1;
            }
            i = i + 1;
        }
        proof {
            assert(seen as int == count_empty(self.grid()));
            assert(false);
        }
    }

    /// Second placement pass: classifies every non-mine cell by the number of
    /// its neighboring mines, leaving the mines themselves untouched.
    #[verifier::rlimit(80)]
    fn assign_neighbor_counts(&mut self)
        requires
            old(self).dims_ok(),
            forall|i: int|
                0 <= i < old(self).grid().len() ==> ((#[trigger] old(self).grid()[i]) is Empty
                    || old(self).grid()[i] is Mine),
        ensures
            final(self).dims_ok(),
            final(self).spec_width() == old(self).spec_width(),
            final(self).spec_height() == old(self).spec_height(),
            final(self).spec_bomb_count() == old(self).spec_bomb_count(),
            final(self).grid().len() == old(self).grid().len(),
            forall|i: int|
                0 <= i < final(self).grid().len() ==> ((#[trigger] final(self).grid()[i]) is Mine
                    <==> old(self).grid()[i] is Mine),
            count_mines(final(self).grid()) == count_mines(old(self).grid()),
            classified(final(self).grid(), final(self).spec_width(), final(self).spec_height()),
    {
        let w = self.width;
        let h = self.height;
        proof {
            assert forall|x2: int, y2: int|
                0 <= x2 < w as int && 0 <= y2 < h as int && !(#[trigger] tile_of(
                    self.grid(),
                    w as int,
                    x2,
                    y2,
                ) is Mine) implies tile_of(self.grid(), w as int, x2, y2) is Empty by {
                lemma_flat_index_bounds(w as int, h as int, x2, y2);
            }
        }
        let mut y: u16 = 0;
        while y < h
            invariant
                self.dims_ok(),
                self.spec_width() == old(self).spec_width(),
                self.spec_height() == old(self).spec_height(),
                self.spec_bomb_count() == old(self).spec_bomb_count(),
                w as int == self.spec_width(),
                h as int == self.spec_height(),
                self.grid().len() == old(self).grid().len(),
                y <= h,
                forall|i: int|
                    0 <= i < self.grid().len() ==> ((#[trigger] self.grid()[i]) is Mine <==> old(
                        self,
                    ).grid()[i] is Mine),
                forall|x2: int, y2: int|
                    0 <= x2 < w as int && 0 <= y2 < h as int && cell_scanned(x2, y2, 0, y as int)
                        && !(#[trigger] tile_of(self.grid(), w as int, x2, y2) is Mine) ==> tile_of(
                        self.grid(),
                        w as int,
                        x2,
                        y2,
                    ) == classify(adjacent_mines(self.grid(), w as int, h as int, x2, y2)),
                forall|x2: int, y2: int|
                    0 <= x2 < w as int && 0 <= y2 < h as int && !cell_scanned(x2, y2, 0, y as int)
                        && !(#[trigger] tile_of(self.grid(), w as int, x2, y2) is Mine) ==> tile_of(
                        self.grid(),
                        w as int,
                        x2,
                        y2,
                    ) is Empty,
            decreases h - y,
        {
            let mut x: u16 = 0;
            while x < w
                invariant
                    self.dims_ok(),
                    self.spec_width() == old(self).spec_width(),
                    self.spec_height() == old(self).spec_height(),
                    self.spec_bomb_count() == old(self).spec_bomb_count(),
                    w as int == self.spec_width(),
                    h as int == self.spec_height(),
                    self.grid().len() == old(self).grid().len(),
                    y < h,
                    x <= w,
                    forall|i: int|
                        0 <= i < self.grid().len() ==> ((#[trigger] self.grid()[i]) is Mine
                            <==> old(self).grid()[i] is Mine),
                    forall|x2: int, y2: int|
                        0 <= x2 < w as int && 0 <= y2 < h as int && cell_scanned(
                            x2,
                            y2,
                            x as int,
                            y as int,
                        ) && !(#[trigger] tile_of(self.grid(), w as int, x2, y2) is Mine)
                            ==> tile_of(self.grid(), w as int, x2, y2) == classify(
                            adjacent_mines(self.grid(), w as int, h as int, x2, y2),
                        ),
                    forall|x2: int, y2: int|
                        0 <= x2 < w as int && 0 <= y2 < h as int && !cell_scanned(
                            x2,
                            y2,
                            x as int,
                            y as int,
                        ) && !(#[trigger] tile_of(self.grid(), w as int, x2, y2) is Mine)
                            ==> tile_of(self.grid(), w as int, x2, y2) is Empty,
                decreases w - x,
            {
                let c = Coordinates { coord_x: x, coord_y: y };
                if !self.is_bomb_at(c) {
                    let n = self.bomb_count_at(c);
                    if n > 0 {
                        let ghost before = self.grid();
                        proof {
                            lemma_adj_mines_le(before, w as int, h as int, x as int, y as int, 8);
                            lemma_flat_index_bounds(w as int, h as int, x as int, y as int);
                        }
                        self.set_tile(x, y, Tile::MineNeighbor(n));
                        proof {
                            lemma_classify_step(
                                before,
                                self.grid(),
                                w as int,
                                h as int,
                                x as int,
                                y as int,
                                n as int,
                            );
                        }
                    } else {
                        proof {
                            lemma_adj_mines_le(
                                self.grid(),
                                w as int,
                                h as int,
                                x as int,
                                y as int,
                                8,
                            );
                        }
                    }
                }
                x = x + 1;
            }
            y = y + 1;
        }
        proof {
            lemma_count_mines_pointwise(self.grid(), old(self).grid(), self.grid().len() as int);
        }
    }

    /// The randomized placement algorithm: draws cells from `rng` until
    /// exactly `bomb_count` mines stand on distinct, uniformly chosen cells of
    /// the fresh grid, then classifies every non-mine cell by its adjacent
    /// mine count. Cells with zero neighboring mines remain `Empty`.
    ///
    /// `bomb_count` must not exceed the number of cells; that precondition is
    /// the caller's to guard.
    pub fn set_bombs(&mut self, bomb_count: u16, rng: &mut rand::rngs::StdRng)
        requires
            old(self).dims_ok(),
            forall|i: int| 0 <= i < old(self).grid().len() ==> (#[trigger] old(self).grid()[i]) is Empty,
            bomb_count as int <= old(self).spec_width() * old(self).spec_height(),
        ensures
            final(self).wf(),
            final(self).spec_width() == old(self).spec_width(),
            final(self).spec_height() == old(self).spec_height(),
            final(self).spec_bomb_count() == bomb_count as int,
            count_mines(final(self).grid()) == bomb_count as int,
            classified(final(self).grid(), final(self).spec_width(), final(self).spec_height()),
    {
        self.bomb_count = bomb_count;
        let total: usize = self.map.len();
        let mut placed: u16 = 0;
        proof {
            lemma_count_mines_zero(self.grid(), total as int);
        }
        while placed < bomb_count
            invariant
                self.dims_ok(),
                self.spec_width() == old(self).spec_width(),
                self.spec_height() == old(self).spec_height(),
                self.spec_bomb_count() == bomb_count as int,
                total == self.grid().len(),
                placed <= bomb_count,
                bomb_count as int <= total as int,
                count_mines(self.grid()) == placed as int,
                forall|i: int|
                    0 <= i < self.grid().len() ==> ((#[trigger] self.grid()[i]) is Empty
                        || self.grid()[i] is Mine),
            decreases bomb_count - placed,
        {
            proof {
                lemma_counts_partition(self.grid(), total as int);
            }
            let empties: usize = total - (placed as usize);
            let j = sample_below(rng, empties);
            self.place_nth_empty(j);
            placed = placed + 1;
        }
        self.assign_neighbor_counts();
    }

    /// Builds a grid with mines at exactly the given, pairwise distinct
    /// coordinates and classifies every other cell — the deterministic
    /// counterpart of `set_bombs`, for reproducible boards.
    pub fn with_mines(width: u16, height: u16, mines: &Vec<Coordinates>) -> (r: TileMap)
        requires
            forall|k: int|
                0 <= k < mines@.len() ==> (#[trigger] mines@[k]).coord_x < width
                    && mines@[k].coord_y < height,
            forall|k1: int, k2: int|
                0 <= k1 < k2 < mines@.len() ==> mines@[k1] != mines@[k2],
            mines@.len() <= u16::MAX,
        ensures
            r.wf(),
            r.spec_width() == width as int,
            r.spec_height() == height as int,
            r.spec_bomb_count() == mines@.len() as int,
            count_mines(r.grid()) == mines@.len() as int,
            forall|x: int, y: int|
                #[trigger] r.spec_mine_at(x, y) <==> mine_listed(mines@, mines@.len() as int, x, y),
    {
        let wi: Ghost<int> = Ghost(width as int);
        let hi: Ghost<int> = Ghost(height as int);
        let mut r = TileMap::empty(width, height);
        r.bomb_count = mines.len() as u16;
        let ghost all = mines@;
        let mut i: usize = 0;
        proof {
            lemma_count_mines_zero(r.grid(), r.grid().len() as int);
            assert forall|x: int, y: int| #[trigger] r.spec_mine_at(x, y) <==> mine_listed(
                all,
                0,
                x,
                y,
            ) by {
                if 0 <= x < wi@ && 0 <= y < hi@ {
                    lemma_flat_index_bounds(wi@, hi@, x, y);
                }
            }
        }
        while i < mines.len()
            invariant
                r.dims_ok(),
                r.spec_width() == width as int,
                r.spec_height() == height as int,
                r.spec_bomb_count() == all.len() as int,
                wi@ == width as int,
                hi@ == height as int,
                all == mines@,
                i <= all.len(),
                all.len() <= u16::MAX,
                forall|k: int|
                    0 <= k < all.len() ==> (#[trigger] all[k]).coord_x < width
                        && all[k].coord_y < height,
                forall|k1: int, k2: int| 0 <= k1 < k2 < all.len() ==> all[k1] != all[k2],
                count_mines(r.grid()) == i as int,
                forall|x: int, y: int|
                    #[trigger] r.spec_mine_at(x, y) <==> mine_listed(all, i as int, x, y),
                forall|j: int|
                    0 <= j < r.grid().len() ==> ((#[trigger] r.grid()[j]) is Empty || r.grid()[j]
                        is Mine),
            decreases all.len() - i,
        {
            let c = mines[i];
            let ghost r0 = r;
            let ghost idx = (c.coord_y as int) * wi@ + (c.coord_x as int);
            proof {
                lemma_flat_index_bounds(wi@, hi@, c.coord_x as int, c.coord_y as int);
                // the cell is not yet a mine: an earlier listed coordinate
                // equal to `c` would contradict distinctness
                if r0.spec_mine_at(c.coord_x as int, c.coord_y as int) {
                    let k = choose|k: int|
                        0 <= k < i as int && (#[trigger] all[k]).coord_x == c.coord_x
                            && all[k].coord_y == c.coord_y;
                    assert(all[k] == all[i as int]);
                    assert(false);
                }
                lemma_count_mines_update(r0.grid(), idx, Tile::Mine, r0.grid().len() as int);
            }
            r.set_tile(c.coord_x, c.coord_y, Tile::Mine);
            proof {
                assert forall|x: int, y: int| #[trigger] r.spec_mine_at(x, y) <==> mine_listed(
                    all,
                    i as int + 1,
                    x,
                    y,
                ) by {
                    if 0 <= x < wi@ && 0 <= y < hi@ {
                        lemma_flat_index_bounds(wi@, hi@, x, y);
                        if y * wi@ + x == idx {
                            lemma_flat_index_injective(
                                wi@,
                                x,
                                y,
                                c.coord_x as int,
                                c.coord_y as int,
                            );
                            // this is the freshly placed cell
                            assert(all[i as int].coord_x == x && all[i as int].coord_y == y);
                            assert(mine_listed(all, i as int + 1, x, y));
                            assert(r.spec_mine_at(x, y));
                        } else {
                            assert(r.grid()[y * wi@ + x] == r0.grid()[y * wi@ + x]);
                            assert(r.spec_mine_at(x, y) == r0.spec_mine_at(x, y));
                            if mine_listed(all, i as int + 1, x, y) {
                                let k = choose|k: int|
                                    0 <= k < i as int + 1 && (#[trigger] all[k]).coord_x == x
                                        && all[k].coord_y == y;
                                if k == i as int {
                                    assert(y * wi@ + x == idx);
                                    assert(false);
                                }
                                assert(mine_listed(all, i as int, x, y));
                            }
                            if mine_listed(all, i as int, x, y) {
                                let k = choose|k: int|
                                    0 <= k < i as int && (#[trigger] all[k]).coord_x == x
                                        && all[k].coord_y == y;
                                assert(0 <= k < i as int + 1 && all[k].coord_x == x
                                    && all[k].coord_y == y);
                                assert(mine_listed(all, i as int + 1, x, y));
                            }
                        }
                    } else {
                        assert(!r.spec_mine_at(x, y));
                        if mine_listed(all, i as int + 1, x, y) {
                            let k = choose|k: int|
                                0 <= k < i as int + 1 && (#[trigger] all[k]).coord_x == x
                                    && all[k].coord_y == y;
                            assert(0 <= all[k].coord_x < width && 0 <= all[k].coord_y < height);
                            assert(false);
                        }
                    }
                }
            }
            i = i + 1;
        }
        let ghost r1 = r;
        r.assign_neighbor_counts();
        proof {
            assert forall|x: int, y: int| #[trigger] r.spec_mine_at(x, y) <==> mine_listed(
                all,
                all.len() as int,
                x,
                y,
            ) by {
                if 0 <= x < wi@ && 0 <= y < hi@ {
                    lemma_flat_index_bounds(wi@, hi@, x, y);
                    assert(r.spec_mine_at(x, y) == r1.spec_mine_at(x, y));
                } else {
                    assert(!r.spec_mine_at(x, y));
                    if mine_listed(all, all.len() as int, x, y) {
                        let k = choose|k: int|
                            0 <= k < all.len() as int && (#[trigger] all[k]).coord_x == x
                                && all[k].coord_y == y;
                        assert(0 <= all[k].coord_x < width && 0 <= all[k].coord_y < height);
                        assert(false);
                    }
                }
            }
        }
        r
    }
}

/// After one non-mine cell of a grid is overwritten with its classification,
/// the mines, every adjacency count, and every other cell are unchanged, and
/// the written cell carries exactly its classification.
proof fn lemma_classify_step(
    before: Seq<Tile>,
    after: Seq<Tile>,
    w: int,
    h: int,
    x: int,
    y: int,
    n: int,
)
    requires
        0 <= x < w,
        0 <= y < h,
        w * h == before.len(),
        1 <= n <= 8,
        n == adjacent_mines(before, w, h, x, y),
        !(tile_of(before, w, x, y) is Mine),
        after == before.update(y * w + x, Tile::MineNeighbor(n as u8)),
    ensures
        after.len() == before.len(),
        forall|i: int| 0 <= i < after.len() ==> ((#[trigger] after[i]) is Mine <==> before[i] is Mine),
        forall|x2: int, y2: int|
            0 <= x2 < w && 0 <= y2 < h ==> #[trigger] adjacent_mines(after, w, h, x2, y2)
                == adjacent_mines(before, w, h, x2, y2),
        forall|x2: int, y2: int|
            0 <= x2 < w && 0 <= y2 < h && !(x2 == x && y2 == y) ==> #[trigger] tile_of(
                after,
                w,
                x2,
                y2,
            ) == tile_of(before, w, x2, y2),
        tile_of(after, w, x, y) == classify(adjacent_mines(after, w, h, x, y)),
{
    lemma_flat_index_bounds(w, h, x, y);
    let idx = y * w + x;
    assert forall|x2: int, y2: int|
        0 <= x2 < w && 0 <= y2 < h && !(x2 == x && y2 == y) implies #[trigger] tile_of(
        after,
        w,
        x2,
        y2,
    ) == tile_of(before, w, x2, y2) by {
        lemma_flat_index_bounds(w, h, x2, y2);
        if y2 * w + x2 == idx {
            lemma_flat_index_injective(w, x2, y2, x, y);
        }
    }
    assert forall|x2: int, y2: int| #[trigger] mine_at(after, w, h, x2, y2) == mine_at(
        before,
        w,
        h,
        x2,
        y2,
    ) by {
        if 0 <= x2 < w && 0 <= y2 < h {
            lemma_flat_index_bounds(w, h, x2, y2);
            if y2 * w + x2 == idx {
                lemma_flat_index_injective(w, x2, y2, x, y);
            }
        }
    }
    assert forall|x2: int, y2: int|
        0 <= x2 < w && 0 <= y2 < h implies #[trigger] adjacent_mines(after, w, h, x2, y2)
        == adjacent_mines(before, w, h, x2, y2) by {
        lemma_adj_mines_same(after, before, w, h, x2, y2, 8);
    }
}

// ---------------------------------------------------------------------------
// Console rendering of a map, character by character.
// ---------------------------------------------------------------------------

/// The character sequence of one decimal digit.
pub open spec fn digit_lit(d: int) -> Seq<char> {
    if d == 0 { "0"@ } else if d == 1 { "1"@ } else if d == 2 { "2"@ } else if d == 3 { "3"@ }
    else if d == 4 { "4"@ } else if d == 5 { "5"@ } else if d == 6 { "6"@ } else if d == 7 { "7"@ }
    else if d == 8 { "8"@ } else { "9"@ }
}

/// The decimal digit sequence of a non-negative number.
pub open spec fn dec_digits(n: int) -> Seq<char>
    decreases n,
{
    if n < 10 {
        digit_lit(n)
    } else {
        dec_digits(n / 10) + digit_lit(n % 10)
    }
}

/// A line of `n` dashes.
pub open spec fn dash_line(n: int) -> Seq<char>
    decreases n,
{
    if n <= 0 {
        Seq::empty()
    } else {
        dash_line(n - 1) + "-"@
    }
}

/// The console character(s) of one tile: blank for `Empty`, a star for a
/// `Mine`, the digit for a `MineNeighbor`.
pub open spec fn tile_chars(t: Tile) -> Seq<char> {
    match t {
        Tile::Empty => " "@,
        Tile::Mine => "*"@,
        Tile::MineNeighbor(n) => digit_lit(n as int),
    }
}

/// The console characters of the first `upto` tiles of row `y`.
pub open spec fn row_chars(g: Seq<Tile>, w: int, y: int, upto: int) -> Seq<char>
    decreases upto,
{
    if upto <= 0 {
        Seq::empty()
    } else {
        row_chars(g, w, y, upto - 1) + tile_chars(tile_of(g, w, upto - 1, y))
    }
}

/// The framed console lines of rows `y - 1` down to `0`, top row first.
pub open spec fn rows_down(g: Seq<Tile>, w: int, y: int) -> Seq<char>
    decreases y,
{
    if y <= 0 {
        Seq::empty()
    } else {
        "|"@ + row_chars(g, w, y - 1, w) + "|\n"@ + rows_down(g, w, y - 1)
    }
}

/// One decimal digit as a string slice.
fn digit_str(d: u8) -> (r: &'static str)
    requires
        d < 10,
    ensures
        r@ == digit_lit(d as int),
{
    if d == 0 { "0" } else if d == 1 { "1" } else if d == 2 { "2" } else if d == 3 { "3" }
    else if d == 4 { "4" } else if d == 5 { "5" } else if d == 6 { "6" } else if d == 7 { "7" }
    else if d == 8 { "8" } else { "9" }
}

/// Appends the decimal digits of `n` to `s`.
fn push_decimal(s: &mut String, n: u16)
    ensures
        final(s)@ == old(s)@ + dec_digits(n as int),
    decreases n,
{
    if n < 10 {
        s.append(digit_str(n as u8));
    } else {
        push_decimal(s, n / 10);
        s.append(digit_str((n % 10) as u8));
        proof {
            assert(final(s)@ =~= old(s)@ + (dec_digits(n as int / 10) + digit_lit(n as int % 10)));
        }
    }
}

/// Appends `n` dashes to `s`.
fn push_dashes(s: &mut String, n: u16)
    ensures
        final(s)@ == old(s)@ + dash_line(n as int),
    decreases n,
{
    if n == 0 {
        proof {
            assert(final(s)@ =~= old(s)@ + dash_line(0));
        }
    } else {
        push_dashes(s, n - 1);
        s.append("-");
        proof {
            assert(final(s)@ =~= old(s)@ + (dash_line(n as int - 1) + "-"@));
        }
    }
}

impl TileMap {
    /// The full console text of the map, as a character sequence: a header
    /// naming the dimensions and the mine count, a dashed frame, and one
    /// framed line per row, top row first.
    pub open spec fn console_seq(self) -> Seq<char> {
        "Map ("@ + dec_digits(self.spec_width()) + ","@ + dec_digits(self.spec_height())
            + ") with "@ + dec_digits(self.spec_bomb_count()) + " bombs:\n"@ + dash_line(
            self.spec_width() + 2,
        ) + "\n"@ + rows_down(self.grid(), self.spec_width(), self.spec_height()) + dash_line(
            self.spec_width() + 2,
        )
    }

    /// Renders the map for the console: dimensions and mine count, then the
    /// grid between dashed lines, the top row first, each tile one character.
    pub fn console_output(&self) -> (r: String)
        requires
            self.wf(),
        ensures
            r@ == self.console_seq(),
    {
        let w = self.width;
        let h = self.height;
        let mut buffer = String::new();
        buffer.append("Map (");
        push_decimal(&mut buffer, w);
        buffer.append(",");
        push_decimal(&mut buffer, h);
        buffer.append(") with ");
        push_decimal(&mut buffer, self.bomb_count);
        buffer.append(" bombs:\n");
        let ghost header = buffer@;
        push_dashes(&mut buffer, w);
        push_dashes(&mut buffer, 2);
        proof {
            lemma_dash_line_add(w as int, 2);
            assert(buffer@ =~= header + dash_line(w as int + 2));
        }
        buffer.append("\n");
        let ghost frame = buffer@;
        let mut y: u16 = h;
        while y > 0
            invariant
                self.wf(),
                w as int == self.spec_width(),
                h as int == self.spec_height(),
                y <= h,
                frame + rows_down(self.grid(), w as int, h as int) =~= buffer@ + rows_down(
                    self.grid(),
                    w as int,
                    y as int,
                ),
            decreases y,
        {
            let ghost line_start = buffer@;
            buffer.append("|");
            let mut x: u16 = 0;
            while x < w
                invariant
                    self.wf(),
                    w as int == self.spec_width(),
                    h as int == self.spec_height(),
                    x <= w,
                    0 < y <= h,
                    buffer@ =~= line_start + "|"@ + row_chars(
                        self.grid(),
                        w as int,
                        y as int - 1,
                        x as int,
                    ),
                decreases w - x,
            {
                proof {
                    lemma_flat_index_bounds(w as int, h as int, x as int, y as int - 1);
                    assert((((y as int - 1) * (w as int)) + (x as int)) < 0x1_0000_0000)
                        by (nonlinear_arith)
                        requires
                            0 <= y as int - 1 <= 0xffff,
                            0 <= x as int <= 0xffff,
                            0 <= w as int <= 0xffff,
                    ;
                }
                let idx: usize = ((y - 1) as usize) * (w as usize) + (x as usize);
                let tile = self.map[idx];
                match tile {
                    Tile::Empty => buffer.append(" "),
                    Tile::Mine => buffer.append("*"),
                    Tile::MineNeighbor(n) => {
                        proof {
                            assert(tile_of(self.grid(), w as int, x as int, y as int - 1)
                                == classify(
                                adjacent_mines(
                                    self.grid(),
                                    w as int,
                                    h as int,
                                    x as int,
                                    y as int - 1,
                                ),
                            ));
                            lemma_adj_mines_le(
                                self.grid(),
                                w as int,
                                h as int,
                                x as int,
                                y as int - 1,
                                8,
                            );
                        }
                        buffer.append(digit_str(n));
                    },
                }
                proof {
                    assert(buffer@ =~= line_start + "|"@ + row_chars(
                        self.grid(),
                        w as int,
                        y as int - 1,
                        x as int + 1,
                    ));
                }
                x = x + 1;
            }
            buffer.append("|\n");
            proof {
                assert(rows_down(self.grid(), w as int, y as int) == "|"@ + row_chars(
                    self.grid(),
                    w as int,
                    y as int - 1,
                    w as int,
                ) + "|\n"@ + rows_down(self.grid(), w as int, y as int - 1));
                assert(frame + rows_down(self.grid(), w as int, h as int) =~= buffer@ + rows_down(
                    self.grid(),
                    w as int,
                    y as int - 1,
                ));
            }
            y = y - 1;
        }
        push_dashes(&mut buffer, w);
        push_dashes(&mut buffer, 2);
        proof {
            lemma_dash_line_add(w as int, 2);
            assert(buffer@ =~= self.console_seq());
        }
        buffer
    }
}

/// Dash lines concatenate.
proof fn lemma_dash_line_add(a: int, b: int)
    requires
        0 <= a,
        0 <= b,
    ensures
        dash_line(a + b) =~= dash_line(a) + dash_line(b),
    decreases b,
{
    if b > 0 {
        lemma_dash_line_add(a, b - 1);
        assert(dash_line(a + b) =~= dash_line(a + b - 1) + "-"@);
    }
}

} // verus!
