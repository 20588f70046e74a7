use breach_protocol::grid::Grid;
use breach_protocol::interner::{Interned, Interner};
use breach_protocol::matrix::{Error, Matrix};

// A 2x2 board:
//   1A 2B
//   3C 1A
fn board() -> (Interner, Grid<Interned>) {
    let mut interner = Interner::new();
    let a = interner.insert("1A".to_string());
    let b = interner.insert("2B".to_string());
    let c = interner.insert("3C".to_string());
    let mut grid = Grid::new(2, 2, a);
    grid.set(1, 0, b);
    grid.set(0, 1, c);
    grid.set(1, 1, a);
    (interner, grid)
}

#[test]
fn starting_active_line_is_top_row() {
    let (_interner, grid) = board();
    let matrix = Matrix::new(grid);
    assert_eq!(matrix.legal_selections(), vec![(0, 0), (1, 0)]);
}

#[test]
fn selecting_pivots_to_the_orthogonal_line() {
    let (_interner, grid) = board();
    let mut matrix = Matrix::new(grid);
    // selecting (1, 0) on Row(0) activates Column(1); (1, 0) is now chosen
    // and excluded
    matrix.select(1, 0).unwrap();
    assert_eq!(matrix.legal_selections(), vec![(1, 1)]);
    // selecting (1, 1) on Column(1) activates Row(1); both chosen cells are
    // excluded
    matrix.select(1, 1).unwrap();
    assert_eq!(matrix.legal_selections(), vec![(0, 1)]);
}

#[test]
fn deselect_restores_the_prior_state() {
    let (_interner, grid) = board();
    let mut matrix = Matrix::new(grid);
    matrix.select(0, 0).unwrap();
    let legal_after_one = matrix.legal_selections();
    let len_after_one = matrix.selected_len();
    let values_after_one = matrix.selected_values();

    matrix.select(0, 1).unwrap();
    matrix.deselect();

    assert_eq!(matrix.legal_selections(), legal_after_one);
    assert_eq!(matrix.selected_len(), len_after_one);
    assert_eq!(matrix.selected_values(), values_after_one);

    matrix.deselect();
    assert_eq!(matrix.selected_len(), 0);
    assert_eq!(matrix.legal_selections(), vec![(0, 0), (1, 0)]);
}

#[test]
fn deselect_on_empty_stack_does_nothing() {
    let (_interner, grid) = board();
    let mut matrix = Matrix::new(grid);
    matrix.deselect();
    assert_eq!(matrix.selected_len(), 0);
    assert_eq!(matrix.legal_selections(), vec![(0, 0), (1, 0)]);
}

#[test]
fn select_out_of_bounds_is_rejected() {
    let (_interner, grid) = board();
    let mut matrix = Matrix::new(grid);
    let result = matrix.select(5, 0);
    assert_eq!(
        result.unwrap_err(),
        Error::OutOfBounds { x: 5, y: 0, width: 2, height: 2 }
    );
    assert_eq!(matrix.selected_len(), 0);
}

#[test]
fn select_off_the_active_line_is_rejected() {
    let (_interner, grid) = board();
    let mut matrix = Matrix::new(grid);
    let result = matrix.select(0, 1);
    assert!(matches!(result, Err(Error::NotActive { x: 0, y: 1, .. })));
    assert_eq!(matrix.selected_len(), 0);
}

#[test]
fn reselecting_a_chosen_cell_is_rejected() {
    let (_interner, grid) = board();
    let mut matrix = Matrix::new(grid);
    matrix.select(0, 0).unwrap();
    // (0, 0) lies on the now-active Column(0) but is already chosen
    let result = matrix.select(0, 0);
    assert_eq!(result.unwrap_err(), Error::AlreadySelected { x: 0, y: 0 });
    assert_eq!(matrix.selected_len(), 1);
}

#[test]
fn select_returns_the_cell_value() {
    let (interner, grid) = board();
    let mut matrix = Matrix::new(grid);
    let token = matrix.select(1, 0).unwrap();
    assert_eq!(interner.value(token).as_str(), "2B");
    assert_eq!(matrix.selected_values(), vec![token]);
}

#[test]
fn grid_lookups_are_bounds_checked() {
    let (_interner, grid) = board();
    let mut flags: Grid<bool> = Grid::new(2, 2, false);
    assert_eq!(grid.idx(1, 1), Some(3));
    assert_eq!(grid.idx(2, 0), None);
    assert!(grid.get(0, 0).is_some());
    assert!(grid.get(0, 2).is_none());
    assert!(flags.get_mut(2, 2).is_none());
    if let Some(cell) = flags.get_mut(1, 0) {
        *cell = true;
    }
    assert_eq!(flags.get(1, 0), Some(&true));
    assert_eq!(flags.get(0, 0), Some(&false));
}
