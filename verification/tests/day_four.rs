use advent_puzzles::day_four::{
    calculate, draw_cards, intersection, parse_card, part_one, part_two, try_draw_cards,
    try_parse_card, try_part_one,
};

#[test]
fn it_calculates_correctly() {
    assert_eq!(calculate(vec![1, 2, 3]), 4);
    assert_eq!(calculate(vec![]), 0);
}

#[test]
fn it_parses_the_card() {
    assert_eq!(
        parse_card("Card 1: 1 2 3 | 4 5 6"),
        (vec![1, 2, 3], vec![4, 5, 6])
    );
}

#[test]
fn it_calculates_intersection() {
    assert_eq!(intersection(&[1, 2, 3], &[1, 2, 3]), vec![1, 2, 3]);
    assert_eq!(intersection(&[1, 2, 3], &[1, 2, 4]), vec![1, 2]);
    assert_eq!(intersection(&[1, 2, 3], &[4, 5, 6]), vec![]);
}

#[test]
fn it_solves_part_one() {
    assert_eq!(
        part_one(vec![
            (vec![41, 48, 83, 86, 17], vec![83, 86, 6, 31, 17, 9, 48, 53]),
            (vec![13, 32, 20, 16, 61], vec![61, 30, 68, 82, 17, 32, 24, 19]),
            (vec![1, 21, 53, 59, 44], vec![69, 82, 63, 72, 16, 21, 14, 1]),
            (vec![41, 92, 73, 84, 69], vec![59, 84, 76, 51, 58, 5, 54, 83]),
            (vec![87, 83, 26, 28, 32], vec![88, 30, 70, 12, 93, 22, 82, 36]),
            (vec![31, 18, 13, 56, 72], vec![74, 77, 10, 23, 35, 67, 36, 11])
        ]),
        13
    );
}

#[test]
fn it_draws_cards() {
    assert_eq!(
        draw_cards(vec![
            (vec![41, 48, 83, 86, 17], vec![83, 86, 6, 31, 17, 9, 48, 53]),
            (vec![13, 32, 20, 16, 61], vec![61, 30, 68, 82, 17, 32, 24, 19]),
            (vec![1, 21, 53, 59, 44], vec![69, 82, 63, 72, 16, 21, 14, 1]),
            (vec![41, 92, 73, 84, 69], vec![59, 84, 76, 51, 58, 5, 54, 83]),
            (vec![87, 83, 26, 28, 32], vec![88, 30, 70, 12, 93, 22, 82, 36]),
            (vec![31, 18, 13, 56, 72], vec![74, 77, 10, 23, 35, 67, 36, 11])
        ]),
        vec![1, 2, 4, 8, 14, 1]
    )
}

#[test]
fn it_solves_part_two() {
    assert_eq!(
        part_two(vec![
            (vec![41, 48, 83, 86, 17], vec![83, 86, 6, 31, 17, 9, 48, 53]),
            (vec![13, 32, 20, 16, 61], vec![61, 30, 68, 82, 17, 32, 24, 19]),
            (vec![1, 21, 53, 59, 44], vec![69, 82, 63, 72, 16, 21, 14, 1]),
            (vec![41, 92, 73, 84, 69], vec![59, 84, 76, 51, 58, 5, 54, 83]),
            (vec![87, 83, 26, 28, 32], vec![88, 30, 70, 12, 93, 22, 82, 36]),
            (vec![31, 18, 13, 56, 72], vec![74, 77, 10, 23, 35, 67, 36, 11])
        ]),
        30
    )
}

#[test]
fn calculate_saturates_on_very_long_lists() {
    assert_eq!(calculate(vec![0; 64]), 1u64 << 63);
    assert_eq!(calculate(vec![0; 65]), u64::MAX);
}

#[test]
fn parse_card_handles_extra_spacing() {
    assert_eq!(
        parse_card("Card   7:  10 20  | 5  6 "),
        (vec![10, 20], vec![5, 6])
    );
}

#[test]
fn parse_card_drops_non_numeric_tokens() {
    assert_eq!(parse_card("Card 1: 1 x 3 | 4"), (vec![1, 3], vec![4]));
}

#[test]
fn try_parse_card_rejects_malformed_lines() {
    assert!(try_parse_card("no colon here").is_none());
    assert!(try_parse_card("Card 1: 1 2 3").is_none());
    assert_eq!(
        try_parse_card("Card 1: 1 | 2").map(|(a, b)| (a, b)),
        Some((vec![1], vec![2]))
    );
}

#[test]
fn try_draw_cards_rejects_matches_past_the_end() {
    // the single match of the first card would reach card index 2 of 2
    let game = vec![(vec![1, 2], vec![1, 2]), (vec![1], vec![9])];
    assert!(try_draw_cards(&game).is_none());
}

#[test]
fn try_part_one_sums_scores() {
    let game = vec![(vec![1, 2], vec![1, 2]), (vec![5], vec![9])];
    assert_eq!(try_part_one(&game), Some(2));
}
