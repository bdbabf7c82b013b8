use minesweeper_engine::{Coordinates, Tile, TileMap};
use rand::SeedableRng;

fn coords(x: u16, y: u16) -> Coordinates {
    Coordinates { coord_x: x, coord_y: y }
}

fn count_mines(map: &TileMap) -> u32 {
    let mut count = 0u32;
    for y in 0..map.height() {
        for x in 0..map.width() {
            if map.is_bomb_at(coords(x, y)) {
                count += 1;
            }
        }
    }
    count
}

/// Counts how many of the 8 saturating neighbor offsets of `(x, y)` land on a
/// mine, exactly as the engine defines it (an offset that saturates onto a
/// mine counts, even when several offsets land on the same cell).
fn manual_neighbor_count(map: &TileMap, x: u16, y: u16) -> u8 {
    let offsets: [(i8, i8); 8] = [
        (-1, -1),
        (0, -1),
        (1, -1),
        (-1, 0),
        (1, 0),
        (-1, 1),
        (0, 1),
        (1, 1),
    ];
    let mut count = 0u8;
    for (dx, dy) in offsets {
        let neighbor = coords(x, y).add_offset((dx, dy));
        if map.is_bomb_at(neighbor) {
            count += 1;
        }
    }
    count
}

#[test]
fn empty_grid_has_no_mines() {
    let map = TileMap::empty(4, 3);
    assert_eq!(map.width(), 4);
    assert_eq!(map.height(), 3);
    assert_eq!(map.bomb_count(), 0);
    for y in 0..3 {
        for x in 0..4 {
            assert_eq!(map.tile(coords(x, y)), Some(Tile::Empty));
            assert!(!map.is_bomb_at(coords(x, y)));
            assert_eq!(map.bomb_count_at(coords(x, y)), 0);
        }
    }
}

#[test]
fn zero_sized_grids_do_not_panic() {
    let a = TileMap::empty(0, 0);
    assert_eq!(a.width(), 0);
    assert_eq!(a.height(), 0);
    assert!(!a.is_bomb_at(coords(0, 0)));
    assert_eq!(a.tile(coords(0, 0)), None);
    let b = TileMap::empty(0, 5);
    assert!(!b.is_bomb_at(coords(0, 2)));
    let c = TileMap::empty(5, 0);
    assert_eq!(c.bomb_count_at(coords(2, 0)), 0);
}

#[test]
fn set_bombs_places_exact_count() {
    for (w, h, n, seed) in [
        (5u16, 5u16, 0u16, 1u64),
        (5, 5, 7, 2),
        (5, 5, 25, 3),
        (20, 20, 60, 4),
        (1, 1, 1, 5),
        (9, 3, 13, 6),
    ] {
        let mut rng = rand::rngs::StdRng::seed_from_u64(seed);
        let mut map = TileMap::empty(w, h);
        map.set_bombs(n, &mut rng);
        assert_eq!(map.bomb_count(), n);
        assert_eq!(count_mines(&map), n as u32);
    }
}

#[test]
fn neighbor_counts_and_classification_agree() {
    let mut rng = rand::rngs::StdRng::seed_from_u64(42);
    let mut map = TileMap::empty(8, 8);
    map.set_bombs(10, &mut rng);
    for y in 0..8 {
        for x in 0..8 {
            let c = coords(x, y);
            let reported = map.bomb_count_at(c);
            if map.is_bomb_at(c) {
                assert_eq!(reported, 0);
                assert_eq!(map.tile(c), Some(Tile::Mine));
            } else {
                let manual = manual_neighbor_count(&map, x, y);
                assert_eq!(reported, manual);
                let expected = if manual == 0 {
                    Tile::Empty
                } else {
                    Tile::MineNeighbor(manual)
                };
                assert_eq!(map.tile(c), Some(expected));
            }
        }
    }
}

#[test]
fn with_mines_places_exactly_the_listed_cells() {
    let mines = vec![coords(0, 0), coords(2, 1), coords(4, 4)];
    let map = TileMap::with_mines(5, 5, &mines);
    assert_eq!(map.bomb_count(), 3);
    for y in 0..5 {
        for x in 0..5 {
            let expected = mines.contains(&coords(x, y));
            assert_eq!(map.is_bomb_at(coords(x, y)), expected);
        }
    }
    assert_eq!(count_mines(&map), 3);
}

#[test]
fn saturating_offsets_can_count_one_mine_twice() {
    // on a 2x1 grid the cell (1, 0) sees the mine at (0, 0) through two
    // offsets: (-1, -1) saturates to (0, 0) and (-1, 0) lands on (0, 0)
    let map = TileMap::with_mines(2, 1, &vec![coords(0, 0)]);
    assert_eq!(map.bomb_count_at(coords(1, 0)), 2);
    assert_eq!(map.tile(coords(1, 0)), Some(Tile::MineNeighbor(2)));
}

#[test]
fn safe_square_applies_the_eight_offsets_with_saturation() {
    let map = TileMap::empty(3, 3);
    let around_origin = map.safe_square_at(coords(0, 0));
    assert_eq!(
        around_origin,
        vec![
            coords(0, 0),
            coords(0, 0),
            coords(1, 0),
            coords(0, 0),
            coords(1, 0),
            coords(0, 1),
            coords(0, 1),
            coords(1, 1),
        ]
    );
    let around_center = map.safe_square_at(coords(1, 1));
    assert_eq!(
        around_center,
        vec![
            coords(0, 0),
            coords(1, 0),
            coords(2, 0),
            coords(0, 1),
            coords(2, 1),
            coords(0, 2),
            coords(1, 2),
            coords(2, 2),
        ]
    );
}

#[test]
fn first_empty_index_scans_row_major() {
    // mines on the whole bottom row and the start of the second row: the
    // first empty cell in scan order is (2, 1), flat index 5
    let mines = vec![coords(0, 0), coords(1, 0), coords(2, 0), coords(0, 1)];
    let map = TileMap::with_mines(3, 3, &mines);
    // (1, 1) is adjacent to mines, so it is numbered, not empty; the scan
    // wants the first Empty tile
    let idx = map.first_empty_index();
    let w = map.width() as usize;
    let x = (idx % w) as u16;
    let y = (idx / w) as u16;
    assert_eq!(map.tile(coords(x, y)), Some(Tile::Empty));
    for flat in 0..idx {
        let fx = (flat % w) as u16;
        let fy = (flat / w) as u16;
        assert_ne!(map.tile(coords(fx, fy)), Some(Tile::Empty));
    }
    let all_mines = TileMap::with_mines(1, 1, &vec![coords(0, 0)]);
    assert_eq!(all_mines.first_empty_index(), 1);
}

#[test]
fn console_output_renders_the_grid() {
    let map = TileMap::empty(1, 1);
    assert_eq!(map.console_output(), "Map (1,1) with 0 bombs:\n---\n| |\n---");

    let map = TileMap::with_mines(2, 1, &vec![coords(0, 0)]);
    assert_eq!(map.console_output(), "Map (2,1) with 1 bombs:\n----\n|*2|\n----");

    // rows print top-down: the mine sits in the bottom row, so it appears in
    // the last framed line; border cells see it through saturated offsets,
    // some of them twice
    let map = TileMap::with_mines(2, 2, &vec![coords(0, 0)]);
    assert_eq!(
        map.console_output(),
        "Map (2,2) with 1 bombs:\n----\n|21|\n|*2|\n----"
    );
}
