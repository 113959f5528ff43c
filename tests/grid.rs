use sudoku::nine_by_nine::NineByNine;

#[test]
fn new_grid_is_empty() {
    let grid: NineByNine<u8> = NineByNine::new();
    assert_eq!(81, grid.count_nones());
    for row in 0..9 {
        for col in 0..9 {
            assert_eq!(None, grid.get(row, col));
        }
    }
}

#[test]
fn set_then_get() {
    let mut grid: NineByNine<u8> = NineByNine::new();
    grid.set(2, 7, Some(4));
    grid.set(8, 8, Some(9));
    assert_eq!(Some(&4), grid.get(2, 7));
    assert_eq!(Some(&9), grid.get(8, 8));
    assert_eq!(None, grid.get(7, 2));
    assert_eq!(79, grid.count_nones());
    grid.set(2, 7, None);
    assert_eq!(None, grid.get(2, 7));
    assert_eq!(80, grid.count_nones());
}

#[test]
fn array_round_trip() {
    let mut data = [None; 81];
    for i in 0..81 {
        if i % 4 != 0 {
            data[i] = Some((i % 9) as u8 + 1);
        }
    }
    let grid = NineByNine::from(data);
    for row in 0..9 {
        for col in 0..9 {
            assert_eq!(data[row * 9 + col].as_ref(), grid.get(row, col));
        }
    }
    assert_eq!(21, grid.count_nones());
}
