use sudoku_propagation::board::{Game, ParseError};
use sudoku_propagation::mask::ALL_CANDIDATES;

fn descriptor(grid: &str) -> Vec<Option<u8>> {
    grid.chars()
        .map(|ch| {
            if ch == '.' {
                None
            } else {
                Some(ch.to_digit(10).unwrap() as u8)
            }
        })
        .collect()
}

#[test]
fn initialize_gives_a_fully_open_board() {
    let game = Game::initialize();
    assert_eq!(game.values.len(), 81);
    assert!(game.values.iter().all(|&m| m == ALL_CANDIDATES));
    assert!(game.partitions.is_empty());
    assert_eq!(game.measure_entropy(), 729);
}

#[test]
fn parse_rejects_a_short_descriptor() {
    let cells: Vec<Option<u8>> = vec![None; 80];
    assert!(matches!(Game::parse(&cells), Err(ParseError::WrongLength)));
    let cells: Vec<Option<u8>> = vec![None; 82];
    assert!(matches!(Game::parse(&cells), Err(ParseError::WrongLength)));
}

#[test]
fn parse_rejects_a_digit_out_of_range() {
    let mut cells: Vec<Option<u8>> = vec![None; 81];
    cells[40] = Some(0);
    assert!(matches!(
        Game::parse(&cells),
        Err(ParseError::DigitOutOfRange)
    ));
    cells[40] = Some(10);
    assert!(matches!(
        Game::parse(&cells),
        Err(ParseError::DigitOutOfRange)
    ));
}

#[test]
fn parse_encodes_blanks_and_digits() {
    let mut grid = String::from("53..7....");
    grid.push_str(&".".repeat(72));
    let game = Game::parse(&descriptor(&grid)).unwrap();
    assert_eq!(game.values[0], 0b000010000); // digit 5
    assert_eq!(game.values[1], 0b000000100); // digit 3
    assert_eq!(game.values[2], ALL_CANDIDATES);
    assert_eq!(game.values[4], 0b001000000); // digit 7
    assert_eq!(game.values[80], ALL_CANDIDATES);
    assert!(game.partitions.is_empty());
}

#[test]
fn entropy_sums_the_candidates_of_every_cell() {
    let mut grid = String::from("53..7....");
    grid.push_str(&".".repeat(72));
    let game = Game::parse(&descriptor(&grid)).unwrap();
    // 3 resolved cells and 78 open ones.
    assert_eq!(game.measure_entropy(), 3 + 78 * 9);
}

#[test]
fn partitions_are_rows_columns_and_blocks() {
    let mut game = Game::initialize();
    game.initialize_partitions();
    assert_eq!(game.partitions.len(), 3);
    let row0: Vec<usize> = (0..9).collect();
    assert_eq!(game.partitions[0].groups[0].indexes, row0);
    let row4: Vec<usize> = (36..45).collect();
    assert_eq!(game.partitions[0].groups[4].indexes, row4);
    let col0: Vec<usize> = (0..9).map(|r| 9 * r).collect();
    assert_eq!(game.partitions[1].groups[0].indexes, col0);
    let col8: Vec<usize> = (0..9).map(|r| 9 * r + 8).collect();
    assert_eq!(game.partitions[1].groups[8].indexes, col8);
    let block1 = vec![3, 4, 5, 12, 13, 14, 21, 22, 23];
    assert_eq!(game.partitions[2].groups[1].indexes, block1);
    let block8 = vec![60, 61, 62, 69, 70, 71, 78, 79, 80];
    assert_eq!(game.partitions[2].groups[8].indexes, block8);
}

#[test]
fn each_partition_covers_the_board_exactly_once() {
    let mut game = Game::initialize();
    game.initialize_partitions();
    for partition in &game.partitions {
        let mut seen = [0u8; 81];
        assert_eq!(partition.groups.len(), 9);
        for group in &partition.groups {
            assert_eq!(group.indexes.len(), 9);
            for &idx in &group.indexes {
                assert!(idx < 81);
                seen[idx] += 1;
            }
        }
        assert!(seen.iter().all(|&n| n == 1));
    }
}
