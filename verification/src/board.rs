//! The per-session engine: a grid plus the presentation-independent session
//! state — which coordinates are still covered, which are marked, one opaque
//! collaborator-supplied handle per covered cell, and the pixel-space
//! placement used for position translation.
//!
//! The invariant `marked ⊆ covered` holds after every operation: a coordinate
//! cannot be marked unless it is still covered, and uncovering a marked
//! coordinate implicitly unmarks it first.

use vstd::prelude::*;

use crate::board_options::BoardOptions;
use crate::bounds::{Bounds2, PixelPoint, PIXEL_LIMIT};
use crate::coordinates::Coordinates;
use crate::tile::Tile;
use crate::events::TileTriggerEvent;
use crate::tile_map::{
    adjacent_mines, classify, count_mines, count_mines_upto, first_empty_from,
    lemma_flat_index_bounds, lemma_flat_index_injective, sat_neighbor, TileMap,
};

verus! {

/// Number of covered cells (`Some` entries) among the first `upto` slots.
pub open spec fn count_covered_upto<H>(s: Seq<Option<H>>, upto: int) -> int
    decreases upto,
{
    if upto <= 0 {
        0
    } else {
        count_covered_upto(s, upto - 1) + if s[upto - 1] is Some { 1int } else { 0 }
    }
}

/// Number of covered cells (`Some` entries) in the whole slot sequence.
pub open spec fn count_covered<H>(s: Seq<Option<H>>) -> int {
    count_covered_upto(s, s.len() as int)
}

/// A covered count over a prefix lies between 0 and the prefix length.
pub proof fn lemma_count_covered_le<H>(s: Seq<Option<H>>, upto: int)
    requires
        0 <= upto <= s.len(),
    ensures
        0 <= count_covered_upto(s, upto) <= upto,
    decreases upto,
{
    if upto > 0 {
        lemma_count_covered_le(s, upto - 1);
    }
}

/// Updating one slot changes a prefix covered count exactly by the difference
/// of the two indicator values, and only when the slot lies inside the prefix.
pub proof fn lemma_count_covered_update<H>(s: Seq<Option<H>>, i: int, v: Option<H>, upto: int)
    requires
        0 <= i < s.len(),
        0 <= upto <= s.len(),
    ensures
        count_covered_upto(s.update(i, v), upto) == count_covered_upto(s, upto) + if i < upto {
            (if v is Some { 1int } else { 0 }) - (if s[i] is Some { 1int } else { 0 })
        } else {
            0
        },
    decreases upto,
{
    if upto > 0 {
        lemma_count_covered_update(s, i, v, upto - 1);
    }
}

/// Removing position `pos` from a duplicate-free sequence removes exactly the
/// element at that position from membership, and keeps the rest
/// duplicate-free.
pub proof fn lemma_remove_distinct(s: Seq<Coordinates>, pos: int)
    requires
        0 <= pos < s.len(),
        forall|i: int, j: int| 0 <= i < j < s.len() ==> s[i] != s[j],
    ensures
        forall|d: Coordinates| #[trigger]
            s.remove(pos).contains(d) <==> (s.contains(d) && d != s[pos]),
        forall|i: int, j: int| 0 <= i < j < s.remove(pos).len() ==> s.remove(pos)[i] != s.remove(
            pos,
        )[j],
{
    let t = s.remove(pos);
    assert forall|d: Coordinates| #[trigger] t.contains(d) <==> (s.contains(d) && d != s[pos]) by {
        if t.contains(d) {
            let i = choose|i: int| 0 <= i < t.len() && t[i] == d;
            if i < pos {
                assert(s[i] == d);
            } else {
                assert(s[i + 1] == d);
            }
        }
        if s.contains(d) && d != s[pos] {
            let i = choose|i: int| 0 <= i < s.len() && s[i] == d;
            if i < pos {
                assert(t[i] == d);
            } else {
                assert(t[i - 1] == d);
            }
            assert(t.contains(d));
        }
    }
}

/// The per-session engine state, generic over the collaborator's opaque
/// per-cell handle type.
pub struct Board<H> {
    tile_map: TileMap,
    bounds: Bounds2,
    tile_size: u32,
    covered_tiles: Vec<Option<H>>,
    covered_count: usize,
    marked_tiles: Vec<Coordinates>,
}

impl<H> Board<H> {
    /// The grid the board plays on.
    pub closed spec fn spec_tile_map(self) -> TileMap {
        self.tile_map
    }

    /// The pixel-space rectangle the board occupies.
    pub closed spec fn spec_bounds(self) -> Bounds2 {
        self.bounds
    }

    /// The tile pixel size used for coordinate translation.
    pub closed spec fn spec_tile_size(self) -> int {
        self.tile_size as int
    }

    /// One slot per cell, row-major: `Some(handle)` while the cell is still
    /// covered, `None` once it has been revealed.
    pub closed spec fn covered(self) -> Seq<Option<H>> {
        self.covered_tiles@
    }

    /// The number of still-covered cells, as maintained by the board.
    pub closed spec fn spec_covered_count(self) -> int {
        self.covered_count as int
    }

    /// The coordinates the player has flagged, in marking order.
    pub closed spec fn marked(self) -> Seq<Coordinates> {
        self.marked_tiles@
    }

    /// Flat row-major slot index of a coordinate.
    pub open spec fn flat(self, c: Coordinates) -> int {
        (c.coord_y as int) * self.spec_tile_map().spec_width() + (c.coord_x as int)
    }

    /// Whether a coordinate lies on the grid.
    pub open spec fn in_grid(self, c: Coordinates) -> bool {
        (c.coord_x as int) < self.spec_tile_map().spec_width() && (c.coord_y as int)
            < self.spec_tile_map().spec_height()
    }

    /// The covered slot of a coordinate: `Some(handle)` while covered, `None`
    /// once revealed or out of grid bounds.
    pub open spec fn covered_cell(self, c: Coordinates) -> Option<H> {
        if self.in_grid(c) {
            self.covered()[self.flat(c)]
        } else {
            None
        }
    }

    /// Whether a coordinate is still covered.
    pub open spec fn is_covered(self, c: Coordinates) -> bool {
        self.covered_cell(c) is Some
    }

    /// Whether a coordinate is flagged by the player.
    pub open spec fn is_marked(self, c: Coordinates) -> bool {
        self.marked().contains(c)
    }

    /// The handles of the covered cells among the first `k` saturated
    /// neighbor offsets of `c`, in offset order; neighbors that are not
    /// currently covered (off-grid ones included) contribute nothing.
    pub open spec fn adjacent_covered_seq(self, c: Coordinates, k: int) -> Seq<H>
        decreases k,
    {
        if k <= 0 {
            Seq::empty()
        } else {
            let prev = self.adjacent_covered_seq(c, k - 1);
            if self.covered_cell(sat_neighbor(c, k - 1)) is Some {
                prev.push(self.covered_cell(sat_neighbor(c, k - 1))->0)
            } else {
                prev
            }
        }
    }

    /// Where a pointer position lands on the grid: the position is taken as
    /// centered in a window of the given dimensions, translated into board
    /// space, tested against the board's pixel rectangle, and divided by the
    /// tile size — with the row flipped, because pixel space grows upward
    /// from the bottom anchor while row 0 is the bottom grid row.
    pub open spec fn spec_mouse_position(self, window: PixelPoint, position: PixelPoint) -> Option<
        Coordinates,
    > {
        let bx = position.x - window.x / 2;
        let by = position.y - window.y / 2;
        if !self.spec_bounds().spec_in_bounds(PixelPoint { x: bx as i64, y: by as i64 }) {
            None
        } else {
            let lx = bx - self.spec_bounds().position.x;
            let ly = by - self.spec_bounds().position.y;
            Some(
                Coordinates {
                    coord_x: (lx / self.spec_tile_size()) as u16,
                    coord_y: (self.spec_tile_map().spec_height() - 1 - ly / self.spec_tile_size())
                        as u16,
                },
            )
        }
    }

    /// The session invariant: a well-formed grid, one covered slot per cell,
    /// an accurate covered count, duplicate-free marks, `marked ⊆ covered`,
    /// and a pixel layout that matches the grid.
    pub open spec fn inv(self) -> bool {
        &&& self.spec_tile_map().wf()
        &&& self.covered().len() == self.spec_tile_map().spec_width()
            * self.spec_tile_map().spec_height()
        &&& self.spec_covered_count() == count_covered(self.covered())
        &&& forall|i: int, j: int| 0 <= i < j < self.marked().len() ==> self.marked()[i]
            != self.marked()[j]
        &&& forall|i: int|
            0 <= i < self.marked().len() ==> self.is_covered(#[trigger] self.marked()[i])
        &&& self.spec_bounds().wf()
        &&& 1 <= self.spec_tile_size()
        &&& self.spec_bounds().size.x == self.spec_tile_map().spec_width() * self.spec_tile_size()
        &&& self.spec_bounds().size.y == self.spec_tile_map().spec_height() * self.spec_tile_size()
    }

    /// The grid, for read-only lookups.
    pub fn tile_map(&self) -> (r: &TileMap)
        ensures
            *r == self.spec_tile_map(),
    {
        &self.tile_map
    }

    /// The pixel-space rectangle the board occupies.
    pub fn bounds(&self) -> (r: Bounds2)
        ensures
            r == self.spec_bounds(),
    {
        self.bounds
    }

    /// The tile pixel size used for coordinate translation.
    pub fn tile_size(&self) -> (r: u32)
        ensures
            r as int == self.spec_tile_size(),
    {
        self.tile_size
    }

    /// The number of still-covered cells.
    pub fn covered_count(&self) -> (r: usize)
        ensures
            r as int == self.spec_covered_count(),
    {
        self.covered_count
    }

    /// Position of a coordinate in the marked list, if it is flagged.
    fn marked_position(&self, coordinates: &Coordinates) -> (r: Option<usize>)
        ensures
            r is Some <==> self.is_marked(*coordinates),
            r matches Some(i) ==> i < self.marked().len() && self.marked()[i as int]
                == *coordinates,
    {
        let n = self.marked_tiles.len();
        let mut i: usize = 0;
        while i < n
            invariant
                i <= n,
                n == self.marked().len(),
                forall|j: int| 0 <= j < i as int ==> self.marked()[j] != *coordinates,
            decreases n - i,
        {
            if self.marked_tiles[i] == *coordinates {
                return Some(i);
            }
            i = i + 1;
        }
        proof {
            if self.marked().contains(*coordinates) {
                let j = choose|j: int| 0 <= j < n && self.marked()[j] == *coordinates;
                assert(false);
            }
        }
        None
    }
}

impl<H: Copy> Board<H> {
    /// The covered slot of a coordinate, bounds-safe: `None` for anything out
    /// of grid bounds or already revealed.
    fn covered_get(&self, coordinates: &Coordinates) -> (r: Option<H>)
        requires
            self.inv(),
        ensures
            r == self.covered_cell(*coordinates),
    {
        let w = self.tile_map.width();
        let h = self.tile_map.height();
        if coordinates.coord_x >= w || coordinates.coord_y >= h {
            return None;
        }
        let idx = self.tile_map.flat_index(coordinates.coord_x, coordinates.coord_y);
        self.covered_tiles[idx]
    }

    /// Whether the cell at `coordinates` is still covered.
    pub fn is_covered_at(&self, coordinates: &Coordinates) -> (r: bool)
        requires
            self.inv(),
        ensures
            r == self.is_covered(*coordinates),
    {
        self.covered_get(coordinates).is_some()
    }

    /// Whether the cell at `coordinates` is flagged by the player.
    pub fn is_marked_at(&self, coordinates: &Coordinates) -> (r: bool)
        ensures
            r == self.is_marked(*coordinates),
    {
        self.marked_position(coordinates).is_some()
    }

    /// Retrieves the handle of a covered tile: `None` if the coordinate is
    /// marked (a marked tile must not be revealable while marked) or not
    /// currently covered.
    pub fn tile_to_uncover(&self, coordinates: &Coordinates) -> (r: Option<H>)
        requires
            self.inv(),
        ensures
            r == if self.is_marked(*coordinates) {
                None::<H>
            } else {
                self.covered_cell(*coordinates)
            },
    {
        if self.marked_position(coordinates).is_some() {
            None
        } else {
            self.covered_get(coordinates)
        }
    }

    /// Removes the coordinates from the marked list, reporting the removed
    /// coordinates; `None` signals the internal inconsistency of unmarking a
    /// coordinate that is not marked, which must not crash the session.
    fn unmark_tile(&mut self, coordinates: &Coordinates) -> (r: Option<Coordinates>)
        requires
            old(self).inv(),
        ensures
            final(self).inv(),
            final(self).spec_tile_map() == old(self).spec_tile_map(),
            final(self).spec_bounds() == old(self).spec_bounds(),
            final(self).spec_tile_size() == old(self).spec_tile_size(),
            final(self).covered() == old(self).covered(),
            final(self).spec_covered_count() == old(self).spec_covered_count(),
            r is Some <==> old(self).is_marked(*coordinates),
            r is Some ==> r == Some(*coordinates),
            forall|d: Coordinates| #[trigger]
                final(self).is_marked(d) <==> (old(self).is_marked(d) && d != *coordinates),
    {
        let pos = match self.marked_position(coordinates) {
            None => {
                proof {
                    assert forall|d: Coordinates| #[trigger]
                        self.is_marked(d) <==> (self.is_marked(d) && d != *coordinates) by {
                        if self.is_marked(d) && d == *coordinates {
                            assert(self.is_marked(*coordinates));
                        }
                    }
                }
                return None;
            },
            Some(p) => p,
        };
        proof {
            lemma_remove_distinct(self.marked(), pos as int);
        }
        let removed = self.marked_tiles.remove(pos);
        Some(removed)
    }

    /// Uncovers a tile: removes the coordinate from the covered set (and from
    /// the marked set, if present, implicitly unmarking it) and returns its
    /// handle, or `None` if it was not covered. This is the sole mutator that
    /// permanently uncovers a cell, and it is idempotent: a second call on the
    /// same coordinate returns `None`, never an error.
    pub fn try_uncover_tile(&mut self, coordinates: &Coordinates) -> (r: Option<H>)
        requires
            old(self).inv(),
        ensures
            final(self).inv(),
            final(self).spec_tile_map() == old(self).spec_tile_map(),
            final(self).spec_bounds() == old(self).spec_bounds(),
            final(self).spec_tile_size() == old(self).spec_tile_size(),
            r == old(self).covered_cell(*coordinates),
            final(self).covered() == if old(self).is_covered(*coordinates) {
                old(self).covered().update(old(self).flat(*coordinates), None::<H>)
            } else {
                old(self).covered()
            },
            final(self).spec_covered_count() == old(self).spec_covered_count() - (
            if old(self).is_covered(*coordinates) {
                1int
            } else {
                0
            }),
            forall|d: Coordinates| #[trigger]
                final(self).is_marked(d) <==> (old(self).is_marked(d) && d != *coordinates),
            !final(self).is_covered(*coordinates),
            forall|d: Coordinates|
                d != *coordinates ==> #[trigger] final(self).covered_cell(d) == old(
                    self,
                ).covered_cell(d),
    {
        let ghost pre = *self;
        if self.marked_position(coordinates).is_some() {
            self.unmark_tile(coordinates);
        } else {
            proof {
                assert forall|d: Coordinates| #[trigger]
                    self.is_marked(d) <==> (pre.is_marked(d) && d != *coordinates) by {
                    if self.is_marked(d) && d == *coordinates {
                        assert(self.is_marked(*coordinates));
                    }
                }
            }
        }
        let w = self.tile_map.width();
        let h = self.tile_map.height();
        if coordinates.coord_x >= w || coordinates.coord_y >= h {
            return None;
        }
        let idx = self.tile_map.flat_index(coordinates.coord_x, coordinates.coord_y);
        let slot = self.covered_tiles[idx];
        match slot {
            None => None,
            Some(handle) => {
                let ghost mid = *self;
                proof {
                    lemma_count_covered_update(
                        self.covered(),
                        idx as int,
                        None::<H>,
                        self.covered().len() as int,
                    );
                    lemma_count_covered_le(
                        self.covered().update(idx as int, None::<H>),
                        self.covered().len() as int,
                    );
                }
                self.covered_tiles.set(idx, None);
                self.covered_count = self.covered_count - 1;
                proof {
                    assert(self.marked() == mid.marked());
                    assert forall|d: Coordinates| #[trigger]
                        self.is_marked(d) <==> (pre.is_marked(d) && d != *coordinates) by {
                        assert(self.is_marked(d) == mid.is_marked(d));
                    }
                    assert forall|i: int|
                        0 <= i < self.marked().len() implies self.is_covered(
                        #[trigger] self.marked()[i],
                    ) by {
                        let d = self.marked()[i];
                        assert(self.marked().contains(d));
                        assert(mid.is_marked(d));
                        assert(pre.is_marked(d) && d != *coordinates);
                        let j = choose|j: int|
                            0 <= j < pre.marked().len() && pre.marked()[j] == d;
                        assert(pre.is_covered(pre.marked()[j]));
                        lemma_flat_index_bounds(
                            w as int,
                            h as int,
                            d.coord_x as int,
                            d.coord_y as int,
                        );
                        if pre.flat(d) == idx as int {
                            lemma_flat_index_injective(
                                w as int,
                                d.coord_x as int,
                                d.coord_y as int,
                                coordinates.coord_x as int,
                                coordinates.coord_y as int,
                            );
                        }
                    }
                    assert forall|d: Coordinates|
                        d != *coordinates implies #[trigger] self.covered_cell(d)
                        == pre.covered_cell(d) by {
                        if self.in_grid(d) {
                            lemma_flat_index_bounds(
                                w as int,
                                h as int,
                                d.coord_x as int,
                                d.coord_y as int,
                            );
                            if pre.flat(d) == idx as int {
                                lemma_flat_index_injective(
                                    w as int,
                                    d.coord_x as int,
                                    d.coord_y as int,
                                    coordinates.coord_x as int,
                                    coordinates.coord_y as int,
                                );
                            }
                        }
                    }
                }
                Some(handle)
            },
        }
    }

    /// Tries to mark or unmark a covered tile, returning its handle and the
    /// new marked state; `None` when the coordinate is not currently covered.
    pub fn try_toggle_mark(&mut self, coordinates: &Coordinates) -> (r: Option<(H, bool)>)
        requires
            old(self).inv(),
        ensures
            final(self).inv(),
            final(self).spec_tile_map() == old(self).spec_tile_map(),
            final(self).spec_bounds() == old(self).spec_bounds(),
            final(self).spec_tile_size() == old(self).spec_tile_size(),
            final(self).covered() == old(self).covered(),
            final(self).spec_covered_count() == old(self).spec_covered_count(),
            r is Some <==> old(self).is_covered(*coordinates),
            r matches Some(p) ==> Some(p.0) == old(self).covered_cell(*coordinates) && p.1 == !old(
                self,
            ).is_marked(*coordinates),
            !old(self).is_covered(*coordinates) ==> final(self).marked() == old(self).marked(),
            forall|d: Coordinates|
                d != *coordinates ==> (#[trigger] final(self).is_marked(d) == old(self).is_marked(
                    d,
                )),
            old(self).is_covered(*coordinates) ==> final(self).is_marked(*coordinates) == !old(
                self,
            ).is_marked(*coordinates),
    {
        let entity = match self.covered_get(coordinates) {
            None => {
                return None;
            },
            Some(e) => e,
        };
        let mark = match self.marked_position(coordinates) {
            Some(_) => {
                self.unmark_tile(coordinates);
                false
            },
            None => {
                self.marked_tiles.push(*coordinates);
                proof {
                    assert(self.marked() == old(self).marked().push(*coordinates));
                    assert forall|i: int, j: int|
                        0 <= i < j < self.marked().len() implies self.marked()[i]
                        != self.marked()[j] by {
                        if j == self.marked().len() - 1 {
                            assert(old(self).marked().contains(old(self).marked()[i]) == true);
                        }
                    }
                    assert(self.marked()[self.marked().len() - 1] == *coordinates);
                    assert(self.is_marked(*coordinates));
                    assert forall|d: Coordinates|
                        d != *coordinates implies (#[trigger] self.is_marked(d) == old(
                        self,
                    ).is_marked(d)) by {
                        if self.is_marked(d) {
                            let i = choose|i: int|
                                0 <= i < self.marked().len() && self.marked()[i] == d;
                            assert(old(self).marked()[i] == d);
                            assert(old(self).is_marked(d));
                        }
                        if old(self).is_marked(d) {
                            let i = choose|i: int|
                                0 <= i < old(self).marked().len() && old(self).marked()[i] == d;
                            assert(self.marked()[i] == d);
                            assert(self.is_marked(d));
                        }
                    }
                }
                true
            },
        };
        Some((entity, mark))
    }

    /// Checks the win condition: every non-mine cell has been revealed, i.e.
    /// the number of coordinates still covered equals the total mine count.
    /// Marks are not consulted.
    pub fn is_completed(&self) -> (r: bool)
        requires
            self.inv(),
        ensures
            r <==> count_covered(self.covered()) == self.spec_tile_map().spec_bomb_count(),
    {
        self.tile_map.bomb_count() as usize == self.covered_count
    }

    /// The handles of the still-covered cells among the 8 saturated neighbors
    /// of `coordinates`, in offset order; used to drive reveal propagation.
    pub fn adjacent_covered_tiles(&self, coordinates: Coordinates) -> (r: Vec<H>)
        requires
            self.inv(),
        ensures
            r@ == self.adjacent_covered_seq(coordinates, 8),
    {
        let neighbors = self.tile_map.safe_square_at(coordinates);
        let mut r: Vec<H> = Vec::new();
        let mut k: usize = 0;
        while k < 8
            invariant
                self.inv(),
                k <= 8,
                neighbors@.len() == 8,
                forall|j: int| 0 <= j < 8 ==> #[trigger] neighbors@[j] == sat_neighbor(
                    coordinates,
                    j,
                ),
                r@ == self.adjacent_covered_seq(coordinates, k as int),
            decreases 8 - k,
        {
            match self.covered_get(&neighbors[k]) {
                Some(handle) => {
                    r.push(handle);
                },
                None => {},
            }
            k = k + 1;
        }
        r
    }

    /// Translates a pointer position, centered in a window of the given
    /// dimensions, to the board coordinate under it; `None` when the position
    /// falls outside the board's pixel rectangle.
    pub fn mouse_position(&self, window: PixelPoint, position: PixelPoint) -> (r: Option<
        Coordinates,
    >)
        requires
            self.inv(),
            0 <= window.x <= PIXEL_LIMIT,
            0 <= window.y <= PIXEL_LIMIT,
            -PIXEL_LIMIT <= position.x <= PIXEL_LIMIT,
            -PIXEL_LIMIT <= position.y <= PIXEL_LIMIT,
        ensures
            r == self.spec_mouse_position(window, position),
    {
        let half_x = ((window.x as u64) / 2) as i64;
        let half_y = ((window.y as u64) / 2) as i64;
        let position_at_board = PixelPoint { x: position.x - half_x, y: position.y - half_y };
        if !self.bounds.in_bounds(position_at_board) {
            return None;
        }
        let w = self.tile_map.width();
        let h = self.tile_map.height();
        let ts = self.tile_size as u64;
        let lx = (position_at_board.x - self.bounds.position.x) as u64;
        let ly = (position_at_board.y - self.bounds.position.y) as u64;
        let col = lx / ts;
        let row = ly / ts;
        proof {
            assert((w as int) * (ts as int) == (ts as int) * (w as int)) by (nonlinear_arith);
            assert((h as int) * (ts as int) == (ts as int) * (h as int)) by (nonlinear_arith);
            vstd::arithmetic::div_mod::lemma_multiply_divide_lt(lx as int, ts as int, w as int);
            vstd::arithmetic::div_mod::lemma_multiply_divide_lt(ly as int, ts as int, h as int);
        }
        Some(Coordinates { coord_x: col as u16, coord_y: h - 1 - (row as u16) })
    }

    /// Builds the per-session engine: an empty grid of the configured size,
    /// mines placed through `rng`, every cell covered with its
    /// collaborator-supplied handle (row-major, one handle per cell), no
    /// marks, and the configured pixel placement.
    ///
    /// When `safe_start` is set and an `Empty` tile exists, the handle of the
    /// first `Empty` cell in row-major scan order is returned beside the
    /// board, flagged for an immediate auto-reveal; revealing it first
    /// guarantees the player's first interaction is not a loss.
    pub fn create_board(
        options: &BoardOptions,
        cell_handles: Vec<H>,
        rng: &mut rand::rngs::StdRng,
    ) -> (res: (Board<H>, Option<H>))
        requires
            options.pixel_layout_ok(),
            options.bomb_count as int <= options.map_size.columns as int
                * options.map_size.rows as int,
            cell_handles@.len() == options.map_size.columns as int * options.map_size.rows as int,
        ensures
            res.0.inv(),
            res.0.spec_tile_map().wf(),
            res.0.spec_tile_map().spec_width() == options.map_size.columns as int,
            res.0.spec_tile_map().spec_height() == options.map_size.rows as int,
            res.0.spec_tile_map().spec_bomb_count() == options.bomb_count as int,
            count_mines(res.0.spec_tile_map().grid()) == options.bomb_count as int,
            res.0.covered().len() == cell_handles@.len(),
            forall|i: int|
                0 <= i < cell_handles@.len() ==> res.0.covered()[i] == Some(cell_handles@[i]),
            res.0.spec_covered_count() == cell_handles@.len(),
            res.0.marked() == Seq::<Coordinates>::empty(),
            res.0.spec_bounds().position == options.spec_board_position_px(),
            res.0.spec_bounds().size.x == options.spec_board_width_px(),
            res.0.spec_bounds().size.y == options.spec_board_height_px(),
            res.0.spec_tile_size() == options.spec_tile_size_px(),
            res.1 == (if options.safe_start && first_empty_from(res.0.spec_tile_map().grid(), 0)
                < res.0.spec_tile_map().grid().len() {
                Some(cell_handles@[first_empty_from(res.0.spec_tile_map().grid(), 0)])
            } else {
                None::<H>
            }),
    {
        let mut tile_map = TileMap::empty(options.map_size.columns, options.map_size.rows);
        tile_map.set_bombs(options.bomb_count, rng);
        Board::from_tile_map(tile_map, options, cell_handles)
    }

    /// Builds the per-session engine around an already-placed grid — the
    /// deterministic counterpart of `create_board`, for reproducible sessions.
    /// Covered slots, marks, pixel placement and the safe-start handle behave
    /// exactly as in `create_board`.
    pub fn from_tile_map(tile_map: TileMap, options: &BoardOptions, cell_handles: Vec<H>) -> (res:
        (Board<H>, Option<H>))
        requires
            tile_map.wf(),
            options.pixel_layout_ok(),
            tile_map.spec_width() == options.map_size.columns as int,
            tile_map.spec_height() == options.map_size.rows as int,
            cell_handles@.len() == tile_map.grid().len(),
        ensures
            res.0.inv(),
            res.0.spec_tile_map() == tile_map,
            res.0.covered().len() == cell_handles@.len(),
            forall|i: int|
                0 <= i < cell_handles@.len() ==> res.0.covered()[i] == Some(cell_handles@[i]),
            res.0.spec_covered_count() == cell_handles@.len(),
            res.0.marked() == Seq::<Coordinates>::empty(),
            res.0.spec_bounds().position == options.spec_board_position_px(),
            res.0.spec_bounds().size.x == options.spec_board_width_px(),
            res.0.spec_bounds().size.y == options.spec_board_height_px(),
            res.0.spec_tile_size() == options.spec_tile_size_px(),
            res.1 == (if options.safe_start && first_empty_from(tile_map.grid(), 0)
                < tile_map.grid().len() {
                Some(cell_handles@[first_empty_from(tile_map.grid(), 0)])
            } else {
                None::<H>
            }),
    {
        let tile_size = options.tile_size_px();
        let board_size = options.board_size();
        let board_position = options.board_position_px();
        let n = cell_handles.len();
        let mut covered_tiles: Vec<Option<H>> = Vec::new();
        let mut i: usize = 0;
        while i < n
            invariant
                i <= n,
                n == cell_handles@.len(),
                covered_tiles@.len() == i as int,
                forall|j: int|
                    0 <= j < i as int ==> covered_tiles@[j] == Some(cell_handles@[j]),
                count_covered_upto(covered_tiles@, i as int) == i as int,
            decreases n - i,
        {
            let ghost prev = covered_tiles@;
            covered_tiles.push(Some(cell_handles[i]));
            proof {
                lemma_count_covered_seqs_agree(covered_tiles@, prev, i as int);
                assert(count_covered_upto(covered_tiles@, i as int + 1) == count_covered_upto(
                    covered_tiles@,
                    i as int,
                ) + 1);
            }
            i = i + 1;
        }
        let mut safe_start: Option<H> = None;
        if options.safe_start {
            let first_empty = tile_map.first_empty_index();
            if first_empty < n {
                safe_start = Some(cell_handles[first_empty]);
            }
        }
        proof {
            vstd::arithmetic::div_mod::lemma_div_pos_is_pos(board_size.x as int, 2);
            vstd::arithmetic::div_mod::lemma_div_pos_is_pos(board_size.y as int, 2);
            vstd::arithmetic::div_mod::lemma_div_is_ordered(
                board_size.x as int,
                PIXEL_LIMIT as int,
                2,
            );
            vstd::arithmetic::div_mod::lemma_div_is_ordered(
                board_size.y as int,
                PIXEL_LIMIT as int,
                2,
            );
        }
        let board = Board {
            tile_map,
            bounds: Bounds2 { position: board_position, size: board_size },
            tile_size,
            covered_tiles,
            covered_count: n,
            marked_tiles: Vec::new(),
        };
        (board, safe_start)
    }
}

/// Two slot sequences that agree below `upto` have the same covered count
/// there.
proof fn lemma_count_covered_seqs_agree<H>(s1: Seq<Option<H>>, s2: Seq<Option<H>>, upto: int)
    requires
        forall|j: int| 0 <= j < upto ==> s1[j] == s2[j],
    ensures
        count_covered_upto(s1, upto) == count_covered_upto(s2, upto),
    decreases upto,
{
    if upto > 0 {
        lemma_count_covered_seqs_agree(s1, s2, upto - 1);
    }
}

/// Whether some entry of a reveal list names the coordinate `d`.
pub open spec fn rev_contains<H>(s: Seq<(Coordinates, H)>, d: Coordinates) -> bool {
    exists|i: int| 0 <= i < s.len() && (#[trigger] s[i]).0 == d
}

/// Every entry of a pushed reveal list names either an old entry's coordinate
/// or the pushed one.
proof fn lemma_rev_contains_push<H>(s: Seq<(Coordinates, H)>, p: (Coordinates, H))
    ensures
        forall|d: Coordinates| #[trigger]
            rev_contains(s.push(p), d) <==> (rev_contains(s, d) || p.0 == d),
{
    assert forall|d: Coordinates| #[trigger]
        rev_contains(s.push(p), d) <==> (rev_contains(s, d) || p.0 == d) by {
        if rev_contains(s.push(p), d) {
            let i = choose|i: int| 0 <= i < s.push(p).len() && (#[trigger] s.push(p)[i]).0 == d;
            if i < s.len() {
                assert(s[i].0 == d);
            }
        }
        if rev_contains(s, d) {
            let i = choose|i: int| 0 <= i < s.len() && (#[trigger] s[i]).0 == d;
            assert(s.push(p)[i].0 == d);
        }
        if p.0 == d {
            assert(s.push(p)[s.len() as int].0 == d);
        }
    }
}

/// What one reveal cascade reports back: the cells it uncovered, each with its
/// handle and in visit order, and whether one of them held a mine (the loss
/// signal; a mine stops propagation but the cascade drains what was already
/// queued).
#[derive(Debug)]
pub struct RevealOutcome<H> {
    /// The coordinates uncovered by this cascade, each with its handle.
    pub revealed: Vec<(Coordinates, H)>,
    /// Whether a mine was uncovered.
    pub exploded: bool,
}

impl<H> Board<H> {
    /// The tile under a coordinate.
    pub open spec fn spec_tile(self, c: Coordinates) -> Tile {
        self.spec_tile_map().tile_at(c.coord_x as int, c.coord_y as int)
    }

    /// One reveal step can spread from `c` to `d`: `c` is covered and holds an
    /// `Empty` tile (no adjacent mines), and `d` is one of its 8 saturated
    /// neighbors.
    pub open spec fn spreads(self, c: Coordinates, d: Coordinates) -> bool {
        &&& self.is_covered(c)
        &&& self.spec_tile(c) is Empty
        &&& exists|k: int| 0 <= k < 8 && d == sat_neighbor(c, k)
    }

    /// `c` is reached from `start` in at most `n` spreading steps over this
    /// board's covered cells.
    pub open spec fn reaches(self, start: Coordinates, c: Coordinates, n: int) -> bool
        decreases n,
    {
        if n <= 0 {
            c == start
        } else {
            self.reaches(start, c, n - 1) || exists|d: Coordinates|
                self.reaches(start, d, n - 1) && #[trigger] self.spreads(d, c)
        }
    }

    /// `c` lies in the reveal region of `start`: it is `start` itself or is
    /// reached through a chain of covered zero-neighbor cells.
    pub open spec fn reachable(self, start: Coordinates, c: Coordinates) -> bool {
        exists|n: int| self.reaches(start, c, n)
    }

    /// A coordinate one spreading step beyond a reachable one is reachable.
    proof fn lemma_reachable_step(self, start: Coordinates, c: Coordinates, d: Coordinates)
        requires
            self.reachable(start, c),
            self.spreads(c, d),
        ensures
            self.reachable(start, d),
    {
        let n = choose|n: int| self.reaches(start, c, n);
        let m = if n < 0 { 0 } else { n };
        assert(self.reaches(start, c, m));
        assert(self.reaches(start, c, (m + 1) - 1));
        assert(self.spreads(c, d));
        assert(exists|e: Coordinates|
            self.reaches(start, e, (m + 1) - 1) && #[trigger] self.spreads(e, d));
        assert(self.reaches(start, d, m + 1));
    }
}

/// The contract of one reveal cascade started at `start` on the board state
/// `pre`: the cascade uncovers exactly the covered cells of the reveal region
/// of `start` — `start` itself plus everything connected to it through covered
/// zero-neighbor cells, including the numbered cells bordering that region —
/// visits no coordinate twice, unmarks what it uncovers and touches nothing
/// else.
pub open spec fn cascade_post<H>(
    pre: Board<H>,
    post: Board<H>,
    start: Coordinates,
    out: RevealOutcome<H>,
) -> bool {
    &&& post.inv()
    &&& post.spec_tile_map() == pre.spec_tile_map()
    &&& post.spec_bounds() == pre.spec_bounds()
    &&& post.spec_tile_size() == pre.spec_tile_size()
    // never revisits: the revealed coordinates are pairwise distinct
    &&& forall|i: int, j: int|
        0 <= i < j < out.revealed@.len() ==> out.revealed@[i].0 != out.revealed@[j].0
    // soundness: everything revealed was covered, carries its own handle, and
    // lies in the reveal region
    &&& forall|i: int|
        0 <= i < out.revealed@.len() ==> pre.is_covered((#[trigger] out.revealed@[i]).0)
            && pre.covered_cell(out.revealed@[i].0) == Some(out.revealed@[i].1) && pre.reachable(
            start,
            out.revealed@[i].0,
        )
    // completeness: every covered cell of the reveal region was revealed
    &&& forall|d: Coordinates|
        pre.is_covered(d) && pre.reachable(start, d) ==> #[trigger] rev_contains(out.revealed@, d)
    // the covered set loses exactly the revealed coordinates
    &&& forall|d: Coordinates| #[trigger]
        post.covered_cell(d) == if rev_contains(out.revealed@, d) {
            None::<H>
        } else {
            pre.covered_cell(d)
        }
    &&& post.spec_covered_count() == pre.spec_covered_count() - out.revealed@.len()
    // uncovering implicitly unmarks; other marks stay
    &&& forall|d: Coordinates| #[trigger]
        post.is_marked(d) <==> (pre.is_marked(d) && !rev_contains(out.revealed@, d))
    // the loss signal comes exactly when a mine was uncovered
    &&& (out.exploded <==> exists|i: int|
        0 <= i < out.revealed@.len() && pre.spec_tile((#[trigger] out.revealed@[i]).0) is Mine)
}

/// Once a reveal list is closed — it contains `start` if `start` was covered,
/// and for each of its `Empty` entries every covered saturated neighbor — it
/// contains every covered cell reached in `n` steps.
proof fn lemma_cascade_complete<H>(
    b0: Board<H>,
    start: Coordinates,
    revealed: Seq<(Coordinates, H)>,
    n: int,
)
    requires
        b0.is_covered(start) ==> rev_contains(revealed, start),
        forall|i: int| 0 <= i < revealed.len() ==> b0.is_covered((#[trigger] revealed[i]).0),
        forall|i: int, k: int|
            0 <= i < revealed.len() && 0 <= k < 8 && b0.spec_tile(
                (#[trigger] revealed[i]).0,
            ) is Empty && b0.is_covered(#[trigger] sat_neighbor(revealed[i].0, k)) ==> rev_contains(
                revealed,
                sat_neighbor(revealed[i].0, k),
            ),
    ensures
        forall|c: Coordinates|
            b0.reaches(start, c, n) && b0.is_covered(c) ==> #[trigger] rev_contains(revealed, c),
    decreases n,
{
    if n > 0 {
        lemma_cascade_complete(b0, start, revealed, n - 1);
        assert forall|c: Coordinates|
            b0.reaches(start, c, n) && b0.is_covered(c) implies #[trigger] rev_contains(
            revealed,
            c,
        ) by {
            if !b0.reaches(start, c, n - 1) {
                let d = choose|d: Coordinates|
                    b0.reaches(start, d, n - 1) && #[trigger] b0.spreads(d, c);
                assert(b0.spreads(d, c));
                assert(b0.is_covered(d));
                assert(rev_contains(revealed, d));
                let i = choose|i: int| 0 <= i < revealed.len() && (#[trigger] revealed[i]).0 == d;
                let k = choose|k: int| 0 <= k < 8 && c == sat_neighbor(d, k);
                assert(revealed[i].0 == d);
                assert(sat_neighbor(revealed[i].0, k) == c);
            }
        }
    }
}

impl<H: Copy> Board<H> {
    /// Runs one reveal cascade from `start`, as a worklist: uncovers `start`
    /// if it is still covered; wherever an uncovered tile is `Empty` (zero
    /// adjacent mines) the reveal propagates to every covered neighbor,
    /// transitively; a `MineNeighbor` tile stops propagation at itself; a
    /// `Mine` raises the loss signal. Each coordinate is uncovered at most
    /// once, which bounds the work.
    #[verifier::loop_isolation(false)]
    #[verifier::rlimit(100)]
    pub fn uncover_tiles(&mut self, start: Coordinates) -> (out: RevealOutcome<H>)
        requires
            old(self).inv(),
        ensures
            cascade_post(*old(self), *final(self), start, out),
    {
        let ghost b0 = *self;
        let mut queue: Vec<Coordinates> = Vec::new();
        queue.push(start);
        let mut revealed: Vec<(Coordinates, H)> = Vec::new();
        let mut exploded: bool = false;
        proof {
            assert(b0.reaches(start, start, 0));
            assert(b0.reachable(start, start));
            assert(queue@[0] == start);
            assert(queue@.contains(start));
        }
        while queue.len() > 0
            invariant
                self.inv(),
                self.spec_tile_map() == b0.spec_tile_map(),
                self.spec_bounds() == b0.spec_bounds(),
                self.spec_tile_size() == b0.spec_tile_size(),
                forall|d: Coordinates| #[trigger]
                    self.covered_cell(d) == if rev_contains(revealed@, d) {
                        None::<H>
                    } else {
                        b0.covered_cell(d)
                    },
                forall|i: int, j: int|
                    0 <= i < j < revealed@.len() ==> revealed@[i].0 != revealed@[j].0,
                forall|i: int|
                    0 <= i < revealed@.len() ==> b0.is_covered((#[trigger] revealed@[i]).0)
                        && b0.covered_cell(revealed@[i].0) == Some(revealed@[i].1)
                        && b0.reachable(start, revealed@[i].0),
                forall|i: int| 0 <= i < queue@.len() ==> b0.reachable(start, #[trigger] queue@[i]),
                forall|i: int, k: int|
                    0 <= i < revealed@.len() && 0 <= k < 8 && b0.spec_tile(
                        (#[trigger] revealed@[i]).0,
                    ) is Empty && b0.is_covered(#[trigger] sat_neighbor(revealed@[i].0, k))
                        ==> rev_contains(revealed@, sat_neighbor(revealed@[i].0, k))
                        || queue@.contains(sat_neighbor(revealed@[i].0, k)),
                b0.is_covered(start) ==> rev_contains(revealed@, start) || queue@.contains(start),
                forall|d: Coordinates| #[trigger]
                    self.is_marked(d) <==> (b0.is_marked(d) && !rev_contains(revealed@, d)),
                self.spec_covered_count() == b0.spec_covered_count() - revealed@.len(),
                exploded <==> exists|i: int|
                    0 <= i < revealed@.len() && b0.spec_tile((#[trigger] revealed@[i]).0) is Mine,
            decreases count_covered(self.covered()), queue@.len(),
        {
            let ghost queue_before = queue@;
            let c = match queue.pop() {
                Some(c) => c,
                None => {
                    proof {
                        assert(false);
                    }
                    unreached()
                },
            };
            proof {
                assert(b0.reachable(start, c));
                assert forall|d: Coordinates|
                    queue_before.contains(d) implies #[trigger] queue@.contains(d) || d == c by {
                    let i = choose|i: int| 0 <= i < queue_before.len() && queue_before[i] == d;
                    if i < queue_before.len() - 1 {
                        assert(queue@[i] == d);
                    }
                }
            }
            let ghost before = *self;
            let ghost revealed_before = revealed@;
            let uncovered = self.try_uncover_tile(&c);
            match uncovered {
                None => {
                    proof {
                        // `c` was no longer covered: if it ever was, it is in
                        // the reveal list already, so every obligation that
                        // `c` satisfied from the queue is still satisfied
                        if b0.is_covered(c) {
                            assert(rev_contains(revealed@, c));
                        }
                        assert forall|d: Coordinates| #[trigger]
                            self.is_marked(d) <==> (b0.is_marked(d) && !rev_contains(
                            revealed@,
                            d,
                        )) by {
                            assert(before.is_marked(d) <==> (b0.is_marked(d) && !rev_contains(
                                revealed@,
                                d,
                            )));
                            if b0.is_marked(d) && !rev_contains(revealed@, d) && d == c {
                                assert(b0.is_covered(c));
                                assert(false);
                            }
                        }
                        assert forall|d: Coordinates| #[trigger]
                            self.covered_cell(d) == (if rev_contains(revealed@, d) {
                                None::<H>
                            } else {
                                b0.covered_cell(d)
                            }) by {
                            assert(before.covered_cell(d) == (if rev_contains(revealed@, d) {
                                None::<H>
                            } else {
                                b0.covered_cell(d)
                            }));
                        }
                    }
                },
                Some(handle) => {
                    proof {
                        assert(before.is_covered(c));
                        assert(!rev_contains(revealed@, c));
                        assert(b0.covered_cell(c) == Some(handle));
                        lemma_rev_contains_push(revealed@, (c, handle));
                    }
                    revealed.push((c, handle));
                    let ghost mid = *self;
                    if self.tile_map.is_bomb_at(c) {
                        exploded = true;
                        proof {
                            assert(b0.spec_tile((revealed@[revealed@.len() - 1]).0) is Mine);
                        }
                    } else {
                        let neighbor_mines = self.tile_map.bomb_count_at(c);
                        if neighbor_mines == 0 {
                            proof {
                                assert(!(b0.spec_tile(c) is Mine));
                                assert(b0.spec_tile(c) == classify(
                                    adjacent_mines(
                                        b0.spec_tile_map().grid(),
                                        b0.spec_tile_map().spec_width(),
                                        b0.spec_tile_map().spec_height(),
                                        c.coord_x as int,
                                        c.coord_y as int,
                                    ),
                                ));
                                assert(b0.spec_tile(c) is Empty);
                            }
                            let neighbors = self.tile_map.safe_square_at(c);
                            let mut k: usize = 0;
                            while k < 8
                                invariant
                                    *self == mid,
                                    k <= 8,
                                    forall|j: int|
                                        0 <= j < k as int && b0.is_covered(
                                            #[trigger] sat_neighbor(c, j),
                                        ) ==> rev_contains(revealed@, sat_neighbor(c, j))
                                            || queue@.contains(sat_neighbor(c, j)),
                                    forall|i: int|
                                        0 <= i < queue@.len() ==> b0.reachable(
                                            start,
                                            #[trigger] queue@[i],
                                        ),
                                    forall|d: Coordinates|
                                        queue_before.contains(d) ==> #[trigger] queue@.contains(d)
                                            || d == c,
                                decreases 8 - k,
                            {
                                let ghost queue_mid = queue@;
                                let neighbor = neighbors[k];
                                if self.covered_get(&neighbor).is_some() {
                                    proof {
                                        assert(self.covered_cell(neighbor) is Some);
                                        assert(b0.is_covered(neighbor));
                                        assert(b0.spreads(c, neighbor)) by {
                                            assert(neighbor == sat_neighbor(c, k as int));
                                        }
                                        b0.lemma_reachable_step(start, c, neighbor);
                                    }
                                    queue.push(neighbor);
                                    proof {
                                        assert(queue@[queue@.len() - 1] == neighbor);
                                        assert forall|d: Coordinates|
                                            queue_mid.contains(d) implies #[trigger] queue@.contains(
                                            d,
                                        ) by {
                                            let i = choose|i: int|
                                                0 <= i < queue_mid.len() && queue_mid[i] == d;
                                            assert(queue@[i] == d);
                                        }
                                    }
                                }
                                k = k + 1;
                            }
                        }
                    }
                    proof {
                        // re-establish the closure obligations for the grown
                        // reveal list against the grown queue
                        assert forall|i: int, k: int|
                            0 <= i < revealed@.len() && 0 <= k < 8 && b0.spec_tile(
                                (#[trigger] revealed@[i]).0,
                            ) is Empty && b0.is_covered(#[trigger] sat_neighbor(revealed@[i].0, k))
                            implies rev_contains(revealed@, sat_neighbor(revealed@[i].0, k))
                            || queue@.contains(sat_neighbor(revealed@[i].0, k)) by {
                            let nb = sat_neighbor(revealed@[i].0, k);
                            if i < revealed@.len() - 1 {
                                assert(revealed_before[i] == revealed@[i]);
                                if rev_contains(revealed_before, nb) {
                                    let j = choose|j: int|
                                        0 <= j < revealed_before.len() && (#[trigger]
                                        revealed_before[j]).0 == nb;
                                    assert(revealed@[j].0 == nb);
                                } else {
                                    assert(queue_before.contains(nb));
                                    if !queue@.contains(nb) {
                                        assert(nb == c);
                                    }
                                }
                            } else {
                                // the freshly revealed cell: its covered
                                // neighbors were just queued or are gone
                                assert(revealed@[i].0 == c);
                                if self.covered_cell(nb) is Some {
                                    assert(b0.is_covered(sat_neighbor(c, k)));
                                } else {
                                    assert(rev_contains(revealed@, nb));
                                }
                            }
                        }
                        if b0.is_covered(start) && !rev_contains(revealed@, start) {
                            assert(!rev_contains(revealed_before, start));
                            assert(queue_before.contains(start));
                            assert(start != c);
                            assert(queue@.contains(start));
                        }
                        assert forall|i: int, j: int|
                            0 <= i < j < revealed@.len() implies revealed@[i].0
                            != revealed@[j].0 by {
                            if j < revealed@.len() - 1 {
                                assert(revealed_before[i] == revealed@[i]);
                                assert(revealed_before[j] == revealed@[j]);
                            } else {
                                assert(revealed@[j].0 == c);
                                assert(revealed_before[i] == revealed@[i]);
                                if revealed@[i].0 == c {
                                    assert(rev_contains(revealed_before, c));
                                    assert(false);
                                }
                            }
                        }
                        assert forall|d: Coordinates| #[trigger]
                            self.covered_cell(d) == (if rev_contains(revealed@, d) {
                                None::<H>
                            } else {
                                b0.covered_cell(d)
                            }) by {
                            assert(before.covered_cell(d) == (if rev_contains(revealed_before, d) {
                                None::<H>
                            } else {
                                b0.covered_cell(d)
                            }));
                            if d == c {
                                assert(!self.is_covered(c));
                                assert(self.covered_cell(c) is None);
                            } else {
                                assert(self.covered_cell(d) == before.covered_cell(d));
                            }
                        }
                        assert forall|d: Coordinates| #[trigger]
                            self.is_marked(d) <==> (b0.is_marked(d) && !rev_contains(
                            revealed@,
                            d,
                        )) by {
                            assert(self.is_marked(d) <==> (before.is_marked(d) && d != c));
                            assert(before.is_marked(d) <==> (b0.is_marked(d) && !rev_contains(
                                revealed_before,
                                d,
                            )));
                        }
                        assert(exploded <==> exists|i: int|
                            0 <= i < revealed@.len() && b0.spec_tile(
                                (#[trigger] revealed@[i]).0,
                            ) is Mine) by {
                            if exploded {
                                if exists|i: int|
                                    0 <= i < revealed_before.len() && b0.spec_tile(
                                        (#[trigger] revealed_before[i]).0,
                                    ) is Mine {
                                    let i = choose|i: int|
                                        0 <= i < revealed_before.len() && b0.spec_tile(
                                            (#[trigger] revealed_before[i]).0,
                                        ) is Mine;
                                    assert(b0.spec_tile((revealed@[i]).0) is Mine);
                                }
                            } else {
                                assert(!(b0.spec_tile(c) is Mine));
                                if exists|i: int|
                                    0 <= i < revealed@.len() && b0.spec_tile(
                                        (#[trigger] revealed@[i]).0,
                                    ) is Mine {
                                    let i = choose|i: int|
                                        0 <= i < revealed@.len() && b0.spec_tile(
                                            (#[trigger] revealed@[i]).0,
                                        ) is Mine;
                                    assert(i < revealed_before.len());
                                    assert(revealed_before[i] == revealed@[i]);
                                }
                            }
                        }
                    }
                },
            }
        }
        proof {
            assert forall|d: Coordinates|
                b0.is_covered(d) && b0.reachable(start, d) implies #[trigger] rev_contains(
                revealed@,
                d,
            ) by {
                let n = choose|n: int| b0.reaches(start, d, n);
                lemma_cascade_complete(b0, start, revealed@, n);
            }
        }
        RevealOutcome { revealed, exploded }
    }

    /// Handles a reveal intent: a marked tile must not be revealable while
    /// marked, and an already-uncovered one is a no-op, so either case leaves
    /// the board untouched and reports an empty cascade; otherwise the reveal
    /// cascade runs from the trigger coordinate.
    pub fn trigger_event_handler(&mut self, event: TileTriggerEvent) -> (out:
        RevealOutcome<H>)
        requires
            old(self).inv(),
        ensures
            old(self).is_marked(event.coordinates) || !old(self).is_covered(event.coordinates)
                ==> *final(self) == *old(self) && out.revealed@.len() == 0 && !out.exploded,
            !(old(self).is_marked(event.coordinates) || !old(self).is_covered(event.coordinates))
                ==> cascade_post(*old(self), *final(self), event.coordinates, out),
            final(self).inv(),
    {
        match self.tile_to_uncover(&event.coordinates) {
            None => RevealOutcome { revealed: Vec::new(), exploded: false },
            Some(_) => self.uncover_tiles(event.coordinates),
        }
    }
}

/// Number of slots below `upto` that are both covered and hold a mine.
pub open spec fn count_covered_mines_upto<H>(cov: Seq<Option<H>>, g: Seq<Tile>, upto: int) -> int
    decreases upto,
{
    if upto <= 0 {
        0
    } else {
        count_covered_mines_upto(cov, g, upto - 1) + if cov[upto - 1] is Some && g[upto - 1]
            is Mine {
            1int
        } else {
            0
        }
    }
}

/// Number of slots below `upto` that are covered and do not hold a mine.
pub open spec fn count_covered_safe_upto<H>(cov: Seq<Option<H>>, g: Seq<Tile>, upto: int) -> int
    decreases upto,
{
    if upto <= 0 {
        0
    } else {
        count_covered_safe_upto(cov, g, upto - 1) + if cov[upto - 1] is Some && !(g[upto - 1]
            is Mine) {
            1int
        } else {
            0
        }
    }
}

/// The covered slots split into covered mines and covered safe cells.
proof fn lemma_covered_split<H>(cov: Seq<Option<H>>, g: Seq<Tile>, upto: int)
    ensures
        count_covered_upto(cov, upto) == count_covered_mines_upto(cov, g, upto)
            + count_covered_safe_upto(cov, g, upto),
    decreases upto,
{
    if upto > 0 {
        lemma_covered_split(cov, g, upto - 1);
    }
}

/// When every mine below `upto` is covered, the covered mines below `upto` are
/// exactly the mines there.
proof fn lemma_covered_mines_all<H>(cov: Seq<Option<H>>, g: Seq<Tile>, upto: int)
    requires
        forall|i: int| 0 <= i < upto && (#[trigger] g[i]) is Mine ==> cov[i] is Some,
    ensures
        count_covered_mines_upto(cov, g, upto) == count_mines_upto(g, upto),
    decreases upto,
{
    if upto > 0 {
        lemma_covered_mines_all(cov, g, upto - 1);
    }
}

/// A single covered safe slot below `upto` makes the covered-safe count
/// positive.
proof fn lemma_covered_safe_witness<H>(cov: Seq<Option<H>>, g: Seq<Tile>, j: int, upto: int)
    requires
        0 <= j < upto,
        cov[j] is Some,
        !(g[j] is Mine),
    ensures
        count_covered_safe_upto(cov, g, upto) >= 1,
    decreases upto,
{
    if j < upto - 1 {
        lemma_covered_safe_witness(cov, g, j, upto - 1);
    }
    lemma_covered_safe_nonneg(cov, g, upto - 1);
}

/// A covered-safe count is never negative.
proof fn lemma_covered_safe_nonneg<H>(cov: Seq<Option<H>>, g: Seq<Tile>, upto: int)
    ensures
        count_covered_safe_upto(cov, g, upto) >= 0,
    decreases upto,
{
    if upto > 0 {
        lemma_covered_safe_nonneg(cov, g, upto - 1);
    }
}

impl<H> Board<H> {
    /// Uncovering is idempotent: `b1` being any state produced by one
    /// `try_uncover_tile` at `c` (its contract is this lemma's hypothesis), a
    /// second `try_uncover_tile` at `c` — whose contract fixes its result to
    /// `b1.covered_cell(c)` — must return `None`, regardless of what the
    /// first call returned.
    pub proof fn lemma_reveal_idempotent(b0: Board<H>, b1: Board<H>, c: Coordinates)
        requires
            b0.inv(),
            b1.spec_tile_map() == b0.spec_tile_map(),
            b1.covered() == (if b0.is_covered(c) {
                b0.covered().update(b0.flat(c), None::<H>)
            } else {
                b0.covered()
            }),
        ensures
            b1.covered_cell(c) == None::<H>,
    {
        if b0.is_covered(c) {
            lemma_flat_index_bounds(
                b0.spec_tile_map().spec_width(),
                b0.spec_tile_map().spec_height(),
                c.coord_x as int,
                c.coord_y as int,
            );
        }
    }

    /// The win test stays false while any safe cell is still covered: as long
    /// as no mine has been uncovered and some covered non-mine cell exists,
    /// the covered count exceeds the mine count, so `is_completed` — whose
    /// contract fixes its result to this comparison — returns false.
    pub proof fn lemma_completion_needs_every_safe_cell(b: Board<H>, c: Coordinates)
        requires
            b.inv(),
            forall|d: Coordinates|
                b.in_grid(d) && (#[trigger] b.spec_tile(d)) is Mine ==> b.is_covered(d),
            b.is_covered(c),
            !(b.spec_tile(c) is Mine),
        ensures
            count_covered(b.covered()) > b.spec_tile_map().spec_bomb_count(),
    {
        let g = b.spec_tile_map().grid();
        let cov = b.covered();
        let w = b.spec_tile_map().spec_width();
        let h = b.spec_tile_map().spec_height();
        let n = g.len() as int;
        assert(cov.len() == w * h);
        assert(n == w * h);
        // bridge the per-coordinate hypothesis to flat indices
        assert forall|i: int| 0 <= i < n && (#[trigger] g[i]) is Mine implies cov[i] is Some by {
            assert(0 < w && 0 < h) by (nonlinear_arith)
                requires
                    0 <= w,
                    0 <= h,
                    0 <= i < w * h,
            ;
            let y = i / w;
            let x = i % w;
            vstd::arithmetic::div_mod::lemma_fundamental_div_mod(i, w);
            vstd::arithmetic::div_mod::lemma_remainder_lower(i, w);
            vstd::arithmetic::div_mod::lemma_remainder_upper(i, w);
            vstd::arithmetic::div_mod::lemma_div_pos_is_pos(i, w);
            vstd::arithmetic::div_mod::lemma_multiply_divide_lt(i, w, h);
            assert(y * w + x == i) by (nonlinear_arith)
                requires
                    i == w * y + x,
            ;
            let d = Coordinates { coord_x: x as u16, coord_y: y as u16 };
            assert(b.spec_tile(d) == g[y * w + x]);
            assert(b.spec_tile(d) is Mine);
            assert(b.is_covered(d));
            assert(b.covered_cell(d) == cov[y * w + x]);
        }
        lemma_covered_split(cov, g, n);
        lemma_covered_mines_all(cov, g, n);
        // the covered safe cell `c` pushes the covered count past the mines
        lemma_flat_index_bounds(w, h, c.coord_x as int, c.coord_y as int);
        assert(cov[b.flat(c)] is Some);
        assert(!(g[b.flat(c)] is Mine)) by {
            assert(b.spec_tile(c) == g[b.flat(c)]);
        }
        lemma_covered_safe_witness(cov, g, b.flat(c), n);
    }
}

} // verus!
