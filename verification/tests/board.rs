use minesweeper_engine::{
    Board, BoardOptions, BoardPosition, BoardSize, Coordinates, PixelPoint, Tile, TileMap,
    TileSize, TileTriggerEvent,
};
use rand::{Rng, SeedableRng};

fn coords(x: u16, y: u16) -> Coordinates {
    Coordinates { coord_x: x, coord_y: y }
}

fn options(columns: u16, rows: u16, bomb_count: u16, safe_start: bool) -> BoardOptions {
    BoardOptions {
        map_size: BoardSize { columns, rows },
        bomb_count,
        position: BoardPosition::Custom(PixelPoint { x: 0, y: 0 }),
        tile_size: TileSize::Fixed(10),
        tile_padding: 0,
        safe_start,
    }
}

/// A board over a deterministic grid; the handle of cell `(x, y)` is its
/// row-major index.
fn board_with_mines(
    columns: u16,
    rows: u16,
    mines: Vec<Coordinates>,
    safe_start: bool,
) -> (Board<u32>, Option<u32>) {
    let map = TileMap::with_mines(columns, rows, &mines);
    let n = (columns as u32) * (rows as u32);
    let handles: Vec<u32> = (0..n).collect();
    Board::from_tile_map(
        map,
        &options(columns, rows, mines.len() as u16, safe_start),
        handles,
    )
}

#[test]
fn center_mine_scenario_numbers_every_other_cell() {
    // a 3x3 grid with a single mine in the center: every other cell sees
    // exactly one mine
    let (board, auto) = board_with_mines(3, 3, vec![coords(1, 1)], false);
    assert_eq!(auto, None);
    let map = board.tile_map();
    for y in 0..3 {
        for x in 0..3 {
            if x == 1 && y == 1 {
                assert_eq!(map.tile(coords(x, y)), Some(Tile::Mine));
            } else {
                assert_eq!(map.tile(coords(x, y)), Some(Tile::MineNeighbor(1)));
            }
        }
    }
}

#[test]
fn revealing_a_numbered_cell_does_not_cascade() {
    let (mut board, _) = board_with_mines(3, 3, vec![coords(1, 1)], false);
    let out = board.uncover_tiles(coords(0, 0));
    assert_eq!(out.revealed, vec![(coords(0, 0), 0u32)]);
    assert!(!out.exploded);
    assert!(!board.is_covered_at(&coords(0, 0)));
    assert!(board.is_covered_at(&coords(1, 0)));
}

#[test]
fn revealing_the_mine_signals_the_loss() {
    let (mut board, _) = board_with_mines(3, 3, vec![coords(1, 1)], false);
    let out = board.uncover_tiles(coords(1, 1));
    assert_eq!(out.revealed, vec![(coords(1, 1), 4u32)]);
    assert!(out.exploded);
}

#[test]
fn completion_comes_exactly_when_all_safe_cells_are_revealed() {
    let (mut board, _) = board_with_mines(3, 3, vec![coords(1, 1)], false);
    assert!(!board.is_completed());
    let safe_cells = [
        coords(0, 0),
        coords(1, 0),
        coords(2, 0),
        coords(0, 1),
        coords(2, 1),
        coords(0, 2),
        coords(1, 2),
        coords(2, 2),
    ];
    for (i, c) in safe_cells.iter().enumerate() {
        assert!(!board.is_completed(), "completed after only {} reveals", i);
        assert!(board.try_uncover_tile(c).is_some());
    }
    assert!(board.is_completed());
    assert_eq!(board.covered_count(), 1);
}

#[test]
fn reveal_is_idempotent() {
    let (mut board, _) = board_with_mines(3, 3, vec![coords(1, 1)], false);
    // a numbered cell, then the mine: the second reveal is always None
    assert_eq!(board.try_uncover_tile(&coords(0, 0)), Some(0));
    assert_eq!(board.try_uncover_tile(&coords(0, 0)), None);
    assert_eq!(board.try_uncover_tile(&coords(1, 1)), Some(4));
    assert_eq!(board.try_uncover_tile(&coords(1, 1)), None);
    // out-of-grid coordinates were never covered
    assert_eq!(board.try_uncover_tile(&coords(7, 7)), None);
    // a second cascade from an already-revealed cell reveals nothing
    let out = board.uncover_tiles(coords(0, 0));
    assert!(out.revealed.is_empty());
    assert!(!out.exploded);
}

#[test]
fn single_empty_cell_completes_immediately() {
    // 1x1 grid without mines: the cell is Empty, revealing it completes the
    // board (0 covered cells equals 0 mines)
    let (mut board, _) = board_with_mines(1, 1, vec![], false);
    assert_eq!(board.tile_map().tile(coords(0, 0)), Some(Tile::Empty));
    assert!(!board.is_completed());
    let out = board.uncover_tiles(coords(0, 0));
    assert_eq!(out.revealed, vec![(coords(0, 0), 0u32)]);
    assert!(!out.exploded);
    assert!(board.is_completed());
    assert_eq!(board.covered_count(), 0);
}

#[test]
fn flood_fill_reveals_the_connected_empty_region_and_its_border() {
    // 4x4 grid, one mine in the corner: the zero-neighbor region is every
    // cell except the mine and its three numbered neighbors; the cascade from
    // the opposite corner reveals the region plus that numbered border
    let (mut board, _) = board_with_mines(4, 4, vec![coords(3, 3)], false);
    let out = board.uncover_tiles(coords(0, 0));
    assert!(!out.exploded);
    assert_eq!(out.revealed.len(), 15);
    // never revisits: all revealed coordinates are distinct
    for i in 0..out.revealed.len() {
        for j in (i + 1)..out.revealed.len() {
            assert_ne!(out.revealed[i].0, out.revealed[j].0);
        }
    }
    // exactly the mine stays covered
    for y in 0..4 {
        for x in 0..4 {
            let covered = board.is_covered_at(&coords(x, y));
            assert_eq!(covered, x == 3 && y == 3);
        }
    }
    assert!(board.is_completed());
}

#[test]
fn cascade_stops_at_numbered_cells() {
    // two mines split the 5x1 strip: revealing at the left end must not leak
    // past the numbered cell in front of the mine
    let (mut board, _) = board_with_mines(5, 1, vec![coords(3, 0)], false);
    let out = board.uncover_tiles(coords(0, 0));
    assert!(!out.exploded);
    // (0,0) and (1,0) are empty, (2,0) is the numbered border; the mine (3,0)
    // and the far side (4,0) stay covered
    let mut revealed: Vec<Coordinates> = out.revealed.iter().map(|p| p.0).collect();
    revealed.sort_by_key(|c| (c.coord_y, c.coord_x));
    assert_eq!(revealed, vec![coords(0, 0), coords(1, 0), coords(2, 0)]);
    assert!(board.is_covered_at(&coords(3, 0)));
    assert!(board.is_covered_at(&coords(4, 0)));
}

#[test]
fn toggling_marks_flags_and_unflags_covered_cells() {
    let (mut board, _) = board_with_mines(3, 3, vec![coords(1, 1)], false);
    assert_eq!(board.try_toggle_mark(&coords(0, 0)), Some((0u32, true)));
    assert!(board.is_marked_at(&coords(0, 0)));
    // a marked tile is not revealable through the trigger path
    assert_eq!(board.tile_to_uncover(&coords(0, 0)), None);
    assert_eq!(board.try_toggle_mark(&coords(0, 0)), Some((0u32, false)));
    assert!(!board.is_marked_at(&coords(0, 0)));
    assert_eq!(board.tile_to_uncover(&coords(0, 0)), Some(0));
    // an uncovered cell cannot be marked
    assert_eq!(board.try_uncover_tile(&coords(2, 2)), Some(8));
    assert_eq!(board.try_toggle_mark(&coords(2, 2)), None);
    // neither can an out-of-grid one
    assert_eq!(board.try_toggle_mark(&coords(9, 9)), None);
}

#[test]
fn trigger_event_handler_suppresses_marked_tiles() {
    let (mut board, _) = board_with_mines(4, 4, vec![coords(3, 3)], false);
    board.try_toggle_mark(&coords(0, 0)).unwrap();
    let out = board.trigger_event_handler(TileTriggerEvent { coordinates: coords(0, 0) });
    assert!(out.revealed.is_empty());
    assert!(!out.exploded);
    assert!(board.is_covered_at(&coords(0, 0)));
    // the cascade from elsewhere still sweeps the marked tile up, unmarking it
    let out = board.trigger_event_handler(TileTriggerEvent { coordinates: coords(0, 3) });
    assert_eq!(out.revealed.len(), 15);
    assert!(!board.is_covered_at(&coords(0, 0)));
    assert!(!board.is_marked_at(&coords(0, 0)));
}

#[test]
fn marked_stays_inside_covered_through_any_sequence() {
    let (mut board, _) = board_with_mines(4, 4, vec![coords(3, 3), coords(0, 1)], false);
    let all: Vec<Coordinates> = (0..4)
        .flat_map(|y| (0..4).map(move |x| coords(x, y)))
        .collect();
    let check = |board: &Board<u32>| {
        for c in &all {
            if board.is_marked_at(c) {
                assert!(board.is_covered_at(c), "marked but uncovered: {:?}", c);
            }
        }
    };
    check(&board);
    board.try_toggle_mark(&coords(0, 0));
    check(&board);
    board.try_toggle_mark(&coords(2, 2));
    check(&board);
    board.try_uncover_tile(&coords(2, 2));
    check(&board);
    board.try_toggle_mark(&coords(3, 3));
    check(&board);
    board.uncover_tiles(coords(1, 3));
    check(&board);
    board.try_toggle_mark(&coords(3, 3));
    check(&board);
    board.try_uncover_tile(&coords(3, 3));
    check(&board);
    board.try_toggle_mark(&coords(0, 1));
    check(&board);
    board.uncover_tiles(coords(0, 1));
    check(&board);
}

#[test]
fn adjacent_covered_tiles_lists_handles_in_offset_order() {
    let (mut board, _) = board_with_mines(3, 3, vec![coords(1, 1)], false);
    // fresh board: all 8 neighbors of the center are covered; handles are
    // row-major indices
    assert_eq!(
        board.adjacent_covered_tiles(coords(1, 1)),
        vec![0u32, 1, 2, 3, 5, 6, 7, 8]
    );
    board.try_uncover_tile(&coords(0, 0));
    assert_eq!(
        board.adjacent_covered_tiles(coords(1, 1)),
        vec![1u32, 2, 3, 5, 6, 7, 8]
    );
    // at the border, saturated offsets collapse onto covered cells (including
    // the cell itself), which are then listed once per offset landing on them
    assert_eq!(
        board.adjacent_covered_tiles(coords(0, 1)),
        vec![1u32, 3, 4, 6, 6, 7]
    );
}

#[test]
fn mouse_position_maps_pixels_to_cells_with_flipped_rows() {
    // board anchored at (0,0), 10x10 cells of 10 pixels, in a 200x200 window
    let (board, _) = board_with_mines(10, 10, vec![coords(9, 9)], false);
    let window = PixelPoint { x: 200, y: 200 };
    // a click at (150,150) lands at board-local (50,50): column 5, and the
    // row is flipped: height - 1 - 5 = 4
    assert_eq!(
        board.mouse_position(window, PixelPoint { x: 150, y: 150 }),
        Some(coords(5, 4))
    );
    // the bottom-left pixel of the board is row height - 1 ... top-right is 0
    assert_eq!(
        board.mouse_position(window, PixelPoint { x: 100, y: 100 }),
        Some(coords(0, 9))
    );
    assert_eq!(
        board.mouse_position(window, PixelPoint { x: 199, y: 199 }),
        Some(coords(9, 0))
    );
    // the upper edges are exclusive, the lower edges inclusive
    assert_eq!(board.mouse_position(window, PixelPoint { x: 200, y: 150 }), None);
    assert_eq!(board.mouse_position(window, PixelPoint { x: 99, y: 150 }), None);
    assert_eq!(board.mouse_position(window, PixelPoint { x: 150, y: 201 }), None);
}

#[test]
fn create_board_covers_everything_and_honors_safe_start() {
    let mut rng = rand::rngs::StdRng::seed_from_u64(7);
    let opts = options(5, 5, 5, true);
    let handles: Vec<u32> = (0..25).collect();
    let (board, auto) = Board::create_board(&opts, handles, &mut rng);
    assert_eq!(board.tile_map().bomb_count(), 5);
    assert_eq!(board.covered_count(), 25);
    assert!(!board.is_completed());
    // the auto-reveal handle belongs to the first Empty cell in scan order
    let first_empty = board.tile_map().first_empty_index();
    if first_empty < 25 {
        assert_eq!(auto, Some(first_empty as u32));
    } else {
        assert_eq!(auto, None);
    }
    // every cell is covered and mines match the recorded count
    let mut mines = 0;
    for y in 0..5 {
        for x in 0..5 {
            assert!(board.is_covered_at(&coords(x, y)));
            assert!(!board.is_marked_at(&coords(x, y)));
            if board.tile_map().is_bomb_at(coords(x, y)) {
                mines += 1;
            }
        }
    }
    assert_eq!(mines, 5);

    let mut rng = rand::rngs::StdRng::seed_from_u64(8);
    let (_, auto) = Board::create_board(&options(4, 4, 2, false), (0..16u32).collect(), &mut rng);
    assert_eq!(auto, None);
}

#[test]
fn safe_start_has_no_cell_on_an_all_mine_board() {
    // pathological board where no Empty tile exists: no auto-reveal
    let (board, auto) = board_with_mines(2, 1, vec![coords(0, 0), coords(1, 0)], true);
    assert_eq!(auto, None);
    assert_eq!(board.tile_map().first_empty_index(), 2);
}

#[test]
fn centered_board_position_offsets_the_bounds() {
    let map = TileMap::with_mines(4, 2, &vec![]);
    let opts = BoardOptions {
        map_size: BoardSize { columns: 4, rows: 2 },
        bomb_count: 0,
        position: BoardPosition::Centered { offset: PixelPoint { x: 6, y: -3 } },
        tile_size: TileSize::Fixed(10),
        tile_padding: 2,
        safe_start: false,
    };
    let (board, _) = Board::from_tile_map(map, &opts, (0..8u32).collect());
    let bounds = board.bounds();
    // board size 40x20, halves 20 and 10, shifted by the offset
    assert_eq!(bounds.position, PixelPoint { x: -14, y: -13 });
    assert_eq!(bounds.size, PixelPoint { x: 40, y: 20 });
    assert_eq!(board.tile_size(), 10);
}

#[test]
fn random_operation_sequences_preserve_marked_inside_covered() {
    let mut rng = rand::rngs::StdRng::seed_from_u64(99);
    let mut grid_rng = rand::rngs::StdRng::seed_from_u64(100);
    let opts = options(8, 8, 10, false);
    let handles: Vec<u32> = (0..64).collect();
    let (mut board, _) = Board::create_board(&opts, handles, &mut grid_rng);
    for _ in 0..300 {
        let x: u16 = rng.gen_range(0..9);
        let y: u16 = rng.gen_range(0..9);
        let c = coords(x, y);
        match rng.gen_range(0..3) {
            0 => {
                board.try_uncover_tile(&c);
            }
            1 => {
                board.try_toggle_mark(&c);
            }
            _ => {
                board.trigger_event_handler(TileTriggerEvent { coordinates: c });
            }
        }
        for cy in 0..8 {
            for cx in 0..8 {
                let d = coords(cx, cy);
                if board.is_marked_at(&d) {
                    assert!(board.is_covered_at(&d));
                }
            }
        }
    }
}
