use advent_puzzles::day_one::{first_last_value, line_digits, parse};

#[test]
fn parse_reads_digit_words_in_scan_order() {
    assert_eq!(parse("two1nine"), Ok(vec![2, 1, 9]));
    assert_eq!(parse("4nineeightseven2"), Ok(vec![4, 9, 8, 7, 2]));
}

#[test]
fn parse_handles_overlapping_words() {
    // the last letter of a completed word can begin the next one
    assert_eq!(parse("eightwo"), Ok(vec![8, 2]));
    assert_eq!(parse("twone"), Ok(vec![2, 1]));
    assert_eq!(parse("zoneight"), Ok(vec![1, 8]));
}

#[test]
fn parse_rejects_lines_without_digits() {
    assert_eq!(parse(""), Err(()));
    assert_eq!(parse("abc.def"), Err(()));
}

#[test]
fn parse_keeps_letters_across_interrupting_digits() {
    // a digit shrinks the scratch word to its last letter rather than
    // clearing it, so letters around a digit can still complete a word
    assert_eq!(parse("o1ne"), Ok(vec![1, 1]));
}

#[test]
fn line_digits_keeps_only_literal_digits() {
    assert_eq!(line_digits("a1b2c3"), vec![1, 2, 3]);
    assert_eq!(line_digits("pqrst"), Vec::<u32>::new());
    assert_eq!(line_digits("treb7uchet"), vec![7]);
}

#[test]
fn first_last_value_combines_ends() {
    assert_eq!(first_last_value(&vec![1, 2, 3]), Some(13));
    assert_eq!(first_last_value(&vec![7]), Some(77));
    assert_eq!(first_last_value(&vec![]), None);
}

#[test]
fn calibration_of_the_spelled_example() {
    let lines = ["two1nine", "eightwothree", "abcone2threexyz", "xtwone3four",
        "4nineeightseven2", "zoneight234", "7pqrstsixteen"];
    let mut total: u32 = 0;
    for line in lines {
        let nums = parse(line).unwrap_or(vec![]);
        if let Some(v) = first_last_value(&nums) {
            total += v;
        }
    }
    assert_eq!(total, 281);
}
