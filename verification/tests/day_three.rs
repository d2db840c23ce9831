use advent_puzzles::day_three::{
    cathegorize, get_marked_numbers, has_symbol, is_ascii_symbol, is_near_symbol, parse,
    process_marked_numbers, process_symbols, shift_sum, try_process_marked_numbers,
    try_process_symbols, Matrix, Token,
};

fn grid_of(lines: &[&str]) -> Matrix {
    lines.iter().map(|l| parse(l).unwrap()).collect()
}

const EXAMPLE: [&str; 10] = [
    "467..114..",
    "...*......",
    "..35..633.",
    "......#...",
    "617*......",
    ".....+.58.",
    "..592.....",
    "......755.",
    "...$.*....",
    ".664.598..",
];

#[test]
fn scenario_part_one_example_sums_to_4361() {
    let grid = grid_of(&EXAMPLE);
    let marked = process_marked_numbers(&grid);
    assert_eq!(marked.iter().sum::<u32>(), 4361);
}

#[test]
fn scenario_part_two_example_sums_to_467835() {
    let grid = grid_of(&EXAMPLE);
    let gears = process_symbols(&grid);
    assert_eq!(gears.iter().sum::<u32>(), 467835);
}

#[test]
fn scenario_single_row_trailing_symbol() {
    let grid = grid_of(&["467*"]);
    let marked = process_marked_numbers(&grid);
    assert_eq!(marked, vec![467]);
}

#[test]
fn scenario_first_and_last_column_clamp() {
    let grid = grid_of(&["1.......9", "*.......*"]);
    let marked = process_marked_numbers(&grid);
    assert_eq!(marked.iter().sum::<u32>(), 10);
}

#[test]
fn scenario_zero_runs_are_never_emitted() {
    let grid = grid_of(&["0.0*0"]);
    let marked = process_marked_numbers(&grid);
    assert_eq!(marked, Vec::<u32>::new());
}

#[test]
fn tokenizer_classifies_each_character() {
    assert_eq!(cathegorize('5'), Token::NumberDigit(5));
    assert_eq!(cathegorize('0'), Token::NumberDigit(0));
    assert_eq!(cathegorize('*'), Token::Symbol('*'));
    assert_eq!(cathegorize('#'), Token::Symbol('#'));
    assert_eq!(cathegorize('.'), Token::Dot);
    assert_eq!(cathegorize('a'), Token::Dot);
    assert_eq!(cathegorize(' '), Token::Dot);
    assert!(is_ascii_symbol('$'));
    assert!(!is_ascii_symbol('.'));
    assert!(!is_ascii_symbol('7'));
}

#[test]
fn parse_keeps_every_character() {
    let row = parse("4*.a").unwrap();
    assert_eq!(
        row,
        vec![
            Token::NumberDigit(4),
            Token::Symbol('*'),
            Token::Dot,
            Token::Dot
        ]
    );
}

#[test]
fn has_symbol_honors_the_filter() {
    let row = parse("4*.").unwrap();
    assert!(has_symbol(&row, None));
    assert!(has_symbol(&row, Some('*')));
    assert!(!has_symbol(&row, Some('#')));
}

#[test]
fn shift_sum_accumulates_decimal_digits() {
    assert_eq!(shift_sum(46, 7), 467);
    assert_eq!(shift_sum(0, 9), 9);
}

#[test]
fn adjacency_covers_the_full_neighborhood() {
    // a digit at every Chebyshev-distance-1 cell of the central symbol
    let grid = grid_of(&["111", "1*1", "111"]);
    let marked = process_marked_numbers(&grid);
    assert_eq!(marked.iter().sum::<u32>(), 111 + 1 + 1 + 111);
}

#[test]
fn adjacency_stops_past_distance_one() {
    let grid = grid_of(&["1..*"]);
    let marked = process_marked_numbers(&grid);
    assert_eq!(marked, Vec::<u32>::new());
}

#[test]
fn is_near_symbol_clamps_at_row_ends() {
    let second = parse("12").unwrap();
    let third = parse("*.").unwrap();
    assert!(is_near_symbol(None, &second, Some(&third), 0, None));
    assert!(is_near_symbol(None, &second, Some(&third), 1, None));
    assert!(!is_near_symbol(None, &second, None, 0, None));
}

#[test]
fn number_runs_report_their_columns() {
    let second = parse("467*").unwrap();
    let marked = get_marked_numbers(None, &second, None, None);
    assert_eq!(marked, vec![(467, vec![0, 1, 2])]);
}

#[test]
fn gear_needs_exactly_two_numbers() {
    // one adjacent number: nothing
    let one = grid_of(&["3..", ".*."]);
    assert_eq!(process_symbols(&one), Vec::<u32>::new());
    // two adjacent numbers: their product
    let two = grid_of(&["3.5", ".*."]);
    assert_eq!(process_symbols(&two), vec![15]);
    // three adjacent numbers: nothing
    let three = grid_of(&["3.5", ".*.", ".7."]);
    assert_eq!(process_symbols(&three), Vec::<u32>::new());
}

#[test]
fn gear_filter_ignores_other_symbols() {
    let grid = grid_of(&["3.5", ".#."]);
    assert_eq!(process_symbols(&grid), Vec::<u32>::new());
    let marked = process_marked_numbers(&grid);
    assert_eq!(marked.iter().sum::<u32>(), 8);
}

#[test]
fn try_variants_accept_ordinary_grids() {
    let grid = grid_of(&["467*"]);
    assert_eq!(try_process_marked_numbers(&grid), Some(vec![467]));
    assert_eq!(try_process_symbols(&grid), Some(vec![]));
}

#[test]
fn try_variants_reject_overflowing_runs() {
    let grid = grid_of(&["99999999999*"]);
    assert_eq!(try_process_marked_numbers(&grid), None);
    assert_eq!(try_process_symbols(&grid), None);
}

#[test]
fn rows_of_different_lengths_are_clamped() {
    let grid = grid_of(&["12", "..*"]);
    let marked = process_marked_numbers(&grid);
    assert_eq!(marked, vec![12]);
}
