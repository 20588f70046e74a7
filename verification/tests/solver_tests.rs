use breach_protocol::grid::Grid;
use breach_protocol::interner::{Interned, Interner};
use breach_protocol::matrix::Matrix;
use breach_protocol::sequence::Sequence;
use breach_protocol::{BreachProtocol, Solution};

fn words(s: &str) -> Vec<String> {
    s.split_ascii_whitespace().map(|w| w.to_string()).collect()
}

fn same_solutions(a: &[Solution], b: &[Solution]) -> bool {
    a.len() == b.len()
        && a.iter()
            .zip(b.iter())
            .all(|(x, y)| x.buffer == y.buffer && x.matches == y.matches)
}

#[test]
fn single_cell_board_with_matching_sequence() {
    let mut interner = Interner::new();
    let a = interner.insert("1A".to_string());
    let grid = Grid::new(1, 1, a);
    let sequences = vec![Sequence::new(&interner, &words("1A")).unwrap()];
    let mut matrix = Matrix::new(grid);
    let game = BreachProtocol { interner, buffer_size: 1 };

    let solutions = game.solve(&mut matrix, &sequences);

    assert_eq!(solutions.len(), 1);
    assert_eq!(solutions[0].buffer, vec![a]);
    assert_eq!(solutions[0].matches, vec![0]);
}

#[test]
fn no_realizable_sequence_yields_no_solutions() {
    let mut interner = Interner::new();
    let a = interner.insert("1A".to_string());
    interner.insert("2B".to_string());
    // every cell is 1A, so no buffer can realize "2B"
    let grid = Grid::new(2, 2, a);
    let sequences = vec![Sequence::new(&interner, &words("2B")).unwrap()];
    let mut matrix = Matrix::new(grid);
    let game = BreachProtocol { interner, buffer_size: 2 };

    let solutions = game.solve(&mut matrix, &sequences);

    assert!(solutions.is_empty());
}

// A 2x2 board:
//   1A 2B
//   3C 1A
// Buffers of size 2 reachable from the top row are exactly
// [1A, 3C] (via (0,0) then (0,1)) and [2B, 1A] (via (1,0) then (1,1)).
fn small_game() -> (BreachProtocol, Matrix, Vec<Sequence>, Vec<Interned>) {
    let mut interner = Interner::new();
    let a = interner.insert("1A".to_string());
    let b = interner.insert("2B".to_string());
    let c = interner.insert("3C".to_string());
    let mut grid = Grid::new(2, 2, a);
    grid.set(1, 0, b);
    grid.set(0, 1, c);
    grid.set(1, 1, a);
    let sequences = vec![
        Sequence::new(&interner, &words("2B 1A")).unwrap(),
        Sequence::new(&interner, &words("1A 2B")).unwrap(),
        Sequence::new(&interner, &words("1A 3C")).unwrap(),
    ];
    let matrix = Matrix::new(grid);
    let game = BreachProtocol { interner, buffer_size: 2 };
    (game, matrix, sequences, vec![a, b, c])
}

#[test]
fn solutions_come_in_depth_first_order_with_matched_indices() {
    let (game, mut matrix, sequences, tokens) = small_game();
    let (a, b, c) = (tokens[0], tokens[1], tokens[2]);

    let solutions = game.solve(&mut matrix, &sequences);

    assert_eq!(solutions.len(), 2);
    // the branch through (0, 0) comes first and realizes [1A, 3C]
    assert_eq!(solutions[0].buffer, vec![a, c]);
    assert_eq!(solutions[0].matches, vec![2]);
    // the branch through (1, 0) realizes [2B, 1A]
    assert_eq!(solutions[1].buffer, vec![b, a]);
    assert_eq!(solutions[1].matches, vec![0]);
}

#[test]
fn solve_is_deterministic_and_idempotent() {
    let (game, mut matrix, sequences, _tokens) = small_game();

    let first = game.solve(&mut matrix, &sequences);
    let second = game.solve(&mut matrix, &sequences);
    let third = game.solve(&mut matrix, &sequences);

    assert!(same_solutions(&first, &second));
    assert!(same_solutions(&second, &third));
    assert!(!first.is_empty());
}

#[test]
fn solve_leaves_the_matrix_as_it_came() {
    let (game, mut matrix, sequences, _tokens) = small_game();
    let legal_before = matrix.legal_selections();
    let len_before = matrix.selected_len();

    game.solve(&mut matrix, &sequences);

    assert_eq!(matrix.legal_selections(), legal_before);
    assert_eq!(matrix.selected_len(), len_before);
}

#[test]
fn zero_buffer_size_yields_no_solutions() {
    let (game_parts, mut matrix, sequences, _tokens) = small_game();
    let game = BreachProtocol { interner: game_parts.interner, buffer_size: 0 };

    let solutions = game.solve(&mut matrix, &sequences);

    // the only buffer is empty, and an empty stream matches nothing
    assert!(solutions.is_empty());
}
