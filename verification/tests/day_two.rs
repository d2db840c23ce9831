use advent_puzzles::day_two::{is_possible, parse, try_parse, Draw, Game};

#[test]
fn parse_reads_id_and_draws() {
    let g = parse("Game 11: 3 blue, 4 red; 1 red, 2 green, 6 blue; 2 green").unwrap();
    assert_eq!(g.id, 11);
    assert_eq!(
        g.colors,
        vec![
            Draw { red: 4, green: 0, blue: 3 },
            Draw { red: 1, green: 2, blue: 6 },
            Draw { red: 0, green: 2, blue: 0 },
        ]
    );
}

#[test]
fn parse_hands_back_an_empty_line() {
    assert_eq!(parse("").err(), Some(""));
}

#[test]
fn try_parse_rejects_malformed_lines() {
    assert!(try_parse("no colon").is_none());
    assert!(try_parse("Game: 1 red").is_none());
    assert!(try_parse("Game 1: 1 yellow").is_none());
    assert!(try_parse("Game 1: red").is_none());
}

#[test]
fn repeated_color_in_one_draw_overwrites() {
    let g = try_parse("Game 2: 1 red, 5 red").unwrap();
    assert_eq!(g.colors, vec![Draw { red: 5, green: 0, blue: 0 }]);
}

#[test]
fn is_possible_compares_every_draw() {
    let g = Game {
        id: 1,
        colors: vec![
            Draw { red: 4, green: 0, blue: 3 },
            Draw { red: 1, green: 2, blue: 6 },
        ],
    };
    assert!(is_possible(&g, 12, 13, 14));
    assert!(!is_possible(&g, 3, 13, 14));
    assert!(!is_possible(&g, 12, 1, 14));
    assert!(!is_possible(&g, 12, 13, 5));
}

#[test]
fn possible_games_of_the_example() {
    let lines = [
        "Game 1: 3 blue, 4 red; 1 red, 2 green, 6 blue; 2 green",
        "Game 2: 1 blue, 2 green; 3 green, 4 blue, 1 red; 1 green, 1 blue",
        "Game 3: 8 green, 6 blue, 20 red; 5 blue, 4 red, 13 green; 5 green, 1 red",
        "Game 4: 1 green, 3 red, 6 blue; 3 green, 6 red; 3 green, 15 blue, 14 red",
        "Game 5: 6 red, 1 blue, 3 green; 2 blue, 1 red, 2 green",
    ];
    let mut total: u32 = 0;
    for line in lines {
        let g = parse(line).unwrap();
        if is_possible(&g, 12, 13, 14) {
            total += g.id;
        }
    }
    assert_eq!(total, 8);
}
