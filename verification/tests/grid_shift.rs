use grid2d::grid::Grid;
use grid2d::int_grid::IntGrid;

fn fresh() -> IntGrid {
    IntGrid { grid: vec![vec![1, 2, 3], vec![4, 5, 6], vec![7, 8, 9]] }
}

#[test]
fn shift_rows_down_pads_at_start() {
    let mut g = fresh();
    assert_eq!(g.shift(1, 0, true), Ok(()));
    assert_eq!(
        g.get_grid(),
        vec![vec![0, 0, 0], vec![1, 2, 3], vec![4, 5, 6], vec![7, 8, 9]]
    );
}

#[test]
fn shift_rows_pads_at_end() {
    let mut g = fresh();
    assert_eq!(g.shift(1, 0, false), Ok(()));
    assert_eq!(
        g.get_grid(),
        vec![vec![1, 2, 3], vec![4, 5, 6], vec![7, 8, 9], vec![0, 0, 0]]
    );
}

#[test]
fn shift_columns_always_pad_left() {
    // the column axis ignores the start flag: new columns go to the left
    let mut g = fresh();
    assert_eq!(g.shift(0, 1, false), Ok(()));
    assert_eq!(
        g.get_grid(),
        vec![vec![0, 1, 2, 3], vec![0, 4, 5, 6], vec![0, 7, 8, 9]]
    );
    let mut g = fresh();
    assert_eq!(g.shift(0, 1, true), Ok(()));
    assert_eq!(
        g.get_grid(),
        vec![vec![0, 1, 2, 3], vec![0, 4, 5, 6], vec![0, 7, 8, 9]]
    );
}

#[test]
fn shift_grows_both_axes_rectangularly() {
    let mut g = fresh();
    assert_eq!(g.shift(2, 1, true), Ok(()));
    assert_eq!(
        g.get_grid(),
        vec![
            vec![0, 0, 0, 0],
            vec![0, 0, 0, 0],
            vec![0, 1, 2, 3],
            vec![0, 4, 5, 6],
            vec![0, 7, 8, 9],
        ]
    );
    assert_eq!(g.get_height(), 5);
    assert_eq!(g.get_width(), 4);
}

#[test]
fn shift_shrink_drops_at_start() {
    let mut g = fresh();
    assert_eq!(g.shift(-1, -1, true), Ok(()));
    assert_eq!(g.get_grid(), vec![vec![5, 6], vec![8, 9]]);
}

#[test]
fn shift_shrink_drops_at_end() {
    let mut g = fresh();
    assert_eq!(g.shift(-1, -1, false), Ok(()));
    assert_eq!(g.get_grid(), vec![vec![1, 2], vec![4, 5]]);
}

#[test]
fn shift_round_trip_at_start() {
    let mut g = fresh();
    assert_eq!(g.shift(2, 1, true), Ok(()));
    assert_eq!(g.shift(-2, -1, true), Ok(()));
    assert_eq!(g.get_grid(), fresh().get_grid());
}

#[test]
fn shift_round_trip_of_rows_at_end() {
    let mut g = fresh();
    assert_eq!(g.shift(2, 0, false), Ok(()));
    assert_eq!(g.shift(-2, 0, false), Ok(()));
    assert_eq!(g.get_grid(), fresh().get_grid());
}

#[test]
fn shift_by_zero_keeps_the_grid() {
    let mut g = fresh();
    assert_eq!(g.shift(0, 0, true), Ok(()));
    assert_eq!(g.get_grid(), fresh().get_grid());
    assert_eq!(g.shift(0, 0, false), Ok(()));
    assert_eq!(g.get_grid(), fresh().get_grid());
}

#[test]
fn shift_positive_and_negative_directly() {
    let mut g = fresh();
    assert_eq!(g.shift_positive(1, 0, true), Ok(()));
    assert_eq!(
        g.get_grid(),
        vec![vec![0, 0, 0], vec![1, 2, 3], vec![4, 5, 6], vec![7, 8, 9]]
    );
    assert_eq!(g.shift_negative(1, 0, true), Ok(()));
    assert_eq!(g.get_grid(), fresh().get_grid());
}

#[test]
fn shift_shrink_everything() {
    let mut g = fresh();
    assert_eq!(g.shift(-3, -3, true), Ok(()));
    assert_eq!(g.get_height(), 0);
}
