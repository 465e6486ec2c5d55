use sudoku_propagation::board::Game;
use sudoku_propagation::group::Group;
use sudoku_propagation::mask::ALL_CANDIDATES;
use sudoku_propagation::rules::{
    evolve, hidden_singles_pairs, naked_subsets, proliferate_from_intersection,
};

fn open_board() -> Vec<u16> {
    vec![ALL_CANDIDATES; 81]
}

fn row_group(r: usize) -> Group {
    Group {
        indexes: (9 * r..9 * r + 9).collect(),
    }
}

fn block_group(b: usize) -> Group {
    Group {
        indexes: (0..9).map(|j| 3 * b + 18 * (b / 3) + 9 * (j / 3) + j % 3).collect(),
    }
}

#[test]
fn naked_pair_clears_its_digits_from_the_rest_of_the_group() {
    // Two cells restricted to exactly digits {1, 2}; the other seven cells
    // of the row lose bits 0 and 1, the pair cells stay untouched.
    let mut values = open_board();
    values[0] = 0b000000011;
    values[1] = 0b000000011;
    naked_subsets(&mut values, &row_group(0));
    assert_eq!(values[0], 0b000000011);
    assert_eq!(values[1], 0b000000011);
    for c in 2..9 {
        assert_eq!(values[c], 0b111111100);
    }
    for c in 9..81 {
        assert_eq!(values[c], ALL_CANDIDATES);
    }
}

#[test]
fn naked_single_clears_its_digit_from_the_rest_of_the_group() {
    let mut values = open_board();
    values[3] = 0b000010000; // digit 5 fixed
    naked_subsets(&mut values, &row_group(0));
    assert_eq!(values[3], 0b000010000);
    for c in 0..9 {
        if c != 3 {
            assert_eq!(values[c], ALL_CANDIDATES & !0b000010000);
        }
    }
}

#[test]
fn hidden_single_forces_the_only_cell_holding_a_digit() {
    // Bit 4 (digit 5) appears only in cell 0's mask; after the rule that
    // cell is exactly digit 5, whatever else it held.
    let mut values = open_board();
    values[0] = 0b000011100;
    for c in 1..9 {
        values[c] = ALL_CANDIDATES & !0b000010000;
    }
    hidden_singles_pairs(&mut values, &row_group(0));
    assert_eq!(values[0], 0b000010000);
    for c in 1..9 {
        assert_eq!(values[c], ALL_CANDIDATES & !0b000010000);
    }
}

#[test]
fn hidden_pair_restricts_the_two_cells_to_the_pair() {
    // Bits 0 and 1 each appear in exactly cells 0 and 1, which both carry
    // both bits: those two cells are cut down to exactly {1, 2}.
    let mut values = open_board();
    values[0] = 0b000001111;
    values[1] = 0b000110011;
    for c in 2..9 {
        values[c] = 0b111111100;
    }
    hidden_singles_pairs(&mut values, &row_group(0));
    assert_eq!(values[0], 0b000000011);
    assert_eq!(values[1], 0b000000011);
    for c in 2..9 {
        assert_eq!(values[c], 0b111111100);
    }
}

#[test]
fn a_mismatched_pair_count_triggers_no_restriction() {
    // Bits 0 and 1 each appear twice, but only one cell carries both:
    // no hidden pair, nothing is rewritten.
    let mut values = open_board();
    values[0] = 0b000001111; // bits 0 and 1
    values[1] = 0b000110001; // bit 0 only
    values[2] = 0b000110010; // bit 1 only
    for c in 3..9 {
        values[c] = 0b111111100;
    }
    let before = values.clone();
    hidden_singles_pairs(&mut values, &row_group(0));
    assert_eq!(values, before);
}

#[test]
fn intersection_rule_clears_a_confined_digit_from_the_rest_of_the_line() {
    // Digit 1 is absent from block 0 outside row 0, so within block 0 it can
    // only sit on row 0: the rest of row 0 loses digit 1.
    let mut values = open_board();
    for &c in &[9, 10, 11, 18, 19, 20] {
        values[c] = 0b111111110;
    }
    let result = proliferate_from_intersection(values, &block_group(0), &row_group(0));
    for c in 3..9 {
        assert_eq!(result[c], 0b111111110);
    }
    // The shared cells and the block cells keep their masks.
    for &c in &[0, 1, 2] {
        assert_eq!(result[c], ALL_CANDIDATES);
    }
    for &c in &[9, 10, 11, 18, 19, 20] {
        assert_eq!(result[c], 0b111111110);
    }
    for c in 21..81 {
        if c % 9 > 2 || c > 26 {
            assert_eq!(result[c], ALL_CANDIDATES);
        }
    }
}

#[test]
fn intersection_rule_is_a_no_op_on_an_open_board() {
    let values = open_board();
    let result = proliferate_from_intersection(values, &block_group(4), &row_group(4));
    assert!(result.iter().all(|&m| m == ALL_CANDIDATES));
}

#[test]
fn top_row_scenario_clears_givens_from_their_row_only() {
    // Board blank except row 0 = "5 3 . . 7 . . . .". One evolve over the
    // row group clears 5, 3 and 7 from the row's blanks, keeps the givens,
    // and leaves every other row untouched.
    let mut grid = String::from("53..7....");
    grid.push_str(&".".repeat(72));
    let cells: Vec<Option<u8>> = grid
        .chars()
        .map(|ch| {
            if ch == '.' {
                None
            } else {
                Some(ch.to_digit(10).unwrap() as u8)
            }
        })
        .collect();
    let game = Game::parse(&cells).unwrap();
    let mut values = game.values;
    evolve(&mut values, &row_group(0));
    assert_eq!(values[4], 0b001000000); // the 7 stays a 7
    assert_eq!(values[0], 0b000010000);
    assert_eq!(values[1], 0b000000100);
    for &c in &[2, 3, 5, 6, 7, 8] {
        assert_eq!(values[c], 0b110101011); // bits of 3, 5, 7 cleared
    }
    for c in 9..81 {
        assert_eq!(values[c], ALL_CANDIDATES); // row 8 and the rest untouched
    }
}
