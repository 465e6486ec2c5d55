use sudoku_propagation::board::Game;
use sudoku_propagation::mask::ALL_CANDIDATES;
use sudoku_propagation::solver::SolveState;

fn descriptor(grid: &str) -> Vec<Option<u8>> {
    grid.chars()
        .map(|ch| {
            if ch == '.' {
                None
            } else {
                Some(ch.to_digit(10).unwrap() as u8)
            }
        })
        .collect()
}

fn game_from(grid: &str) -> Game {
    let mut game = Game::parse(&descriptor(grid)).unwrap();
    game.initialize_partitions();
    game
}

const CLASSIC: &str = "53..7....\
                       6..195...\
                       .98....6.\
                       8...6...3\
                       4..8.3..1\
                       7...2...6\
                       .6....28.\
                       ...419..5\
                       ....8..79";

const CLASSIC_SOLUTION: &str = "534678912\
                                672195348\
                                198342567\
                                859761423\
                                426853791\
                                713924856\
                                961537284\
                                287419635\
                                345286179";

#[test]
fn a_step_never_raises_the_entropy() {
    let mut game = game_from(CLASSIC);
    let mut entropy = game.measure_entropy();
    for _ in 0..3 {
        game.step();
        let next = game.measure_entropy();
        assert!(next <= entropy);
        entropy = next;
    }
}

#[test]
fn a_step_never_gives_a_cell_a_new_candidate() {
    let mut game = game_from(CLASSIC);
    let before = game.values.clone();
    game.step();
    for c in 0..81 {
        assert_eq!(game.values[c] & before[c], game.values[c]);
    }
}

#[test]
fn resolved_cells_survive_a_step_on_this_puzzle() {
    let mut game = game_from(CLASSIC);
    for _ in 0..3 {
        let before = game.values.clone();
        game.step();
        for c in 0..81 {
            if before[c].count_ones() == 1 {
                assert_eq!(game.values[c], before[c]);
            }
        }
    }
}

#[test]
fn propagation_solves_the_classic_puzzle() {
    let mut game = game_from(CLASSIC);
    let (state, steps) = game.solve();
    assert_eq!(state, SolveState::Solved);
    assert_eq!(steps, 2);
    assert_eq!(game.measure_entropy(), 81);
    let expected: Vec<u8> = CLASSIC_SOLUTION
        .chars()
        .map(|ch| ch.to_digit(10).unwrap() as u8)
        .collect();
    for c in 0..81 {
        assert_eq!(
            sudoku_propagation::mask::digit_of(game.values[c]),
            Some(expected[c])
        );
    }
}

#[test]
fn a_solved_descriptor_terminates_in_zero_steps() {
    let mut game = game_from(CLASSIC_SOLUTION);
    assert_eq!(game.measure_entropy(), 81);
    let before = game.values.clone();
    let (state, steps) = game.solve();
    assert_eq!(state, SolveState::Solved);
    assert_eq!(steps, 0);
    assert_eq!(game.values, before);
}

#[test]
fn an_empty_board_stalls() {
    let blank = ".".repeat(81);
    let mut game = game_from(&blank);
    let (state, steps) = game.solve();
    assert_eq!(state, SolveState::Stalled);
    assert_eq!(steps, 1);
    assert!(game.values.iter().all(|&m| m == ALL_CANDIDATES));
}

#[test]
fn full_step_on_the_top_row_scenario() {
    let mut grid = String::from("53..7....");
    grid.push_str(&".".repeat(72));
    let mut game = game_from(&grid);
    game.step();
    // The given 7 is still a 7.
    assert_eq!(game.values[4], 0b001000000);
    // Row 0's blanks lost the candidates 3, 5 and 7.
    for &c in &[2, 3, 5, 6, 7, 8] {
        assert_eq!(game.values[c] & 0b001010100, 0);
    }
    // Column 0's blanks lost candidate 5.
    for r in 1..9 {
        assert_eq!(game.values[9 * r] & 0b000010000, 0);
    }
    // Block 0's blanks lost candidates 5 and 3.
    for &c in &[2, 9, 10, 11, 18, 19, 20] {
        assert_eq!(game.values[c] & 0b000010100, 0);
    }
}
