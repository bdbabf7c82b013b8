use minesweeper_engine::Coordinates;

fn coords(x: u16, y: u16) -> Coordinates {
    Coordinates { coord_x: x, coord_y: y }
}

#[test]
fn add_saturates_at_the_top() {
    assert_eq!(coords(2, 3).add(coords(4, 5)), coords(6, 8));
    assert_eq!(coords(u16::MAX, 1).add(coords(1, 1)), coords(u16::MAX, 2));
    assert_eq!(
        coords(u16::MAX, u16::MAX).add(coords(u16::MAX, u16::MAX)),
        coords(u16::MAX, u16::MAX)
    );
}

#[test]
fn add_offset_clamps_underflow_to_zero() {
    assert_eq!(coords(0, 0).add_offset((-1, -1)), coords(0, 0));
    assert_eq!(coords(5, 2).add_offset((-1, 1)), coords(4, 3));
    assert_eq!(coords(0, 7).add_offset((1, -8)), coords(1, 0));
    assert_eq!(coords(u16::MAX, 0).add_offset((1, 0)), coords(u16::MAX, 0));
}

#[test]
fn sub_saturates_per_component_at_zero() {
    assert_eq!(coords(5, 5).sub(coords(2, 7)), coords(3, 0));
    assert_eq!(coords(0, 0).sub(coords(1, 1)), coords(0, 0));
    assert_eq!(coords(9, 4).sub(coords(9, 4)), coords(0, 0));
}
