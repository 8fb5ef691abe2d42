use aoc2023::almanac::{
    expand_seed_ranges, header_index, lowest_location, parse_seeds, Almanac, Range, RangeMap,
};
use aoc2023::calibration::{calibration_sum, calibration_value};
use aoc2023::cubes::{game_power, parse_game, possible_id_sum, power_sum, Config, Game, Round};
use aoc2023::schematic::{
    engine_gear_sum, engine_part_sum, is_adjacent, scan_marks, scan_numbers, Mark, PartNumber,
};
use aoc2023::scratchcard::{
    card_count_total, card_overlap, card_score, overlap_count, parse_card, score_total,
    total_cards, DefaultValueVec,
};

fn lines(text: &[&str]) -> Vec<Vec<u8>> {
    text.iter().map(|l| l.as_bytes().to_vec()).collect()
}

const ALMANAC: [&str; 33] = [
    "seeds: 79 14 55 13",
    "",
    "seed-to-soil map:",
    "50 98 2",
    "52 50 48",
    "",
    "soil-to-fertilizer map:",
    "0 15 37",
    "37 52 2",
    "39 0 15",
    "",
    "fertilizer-to-water map:",
    "49 53 8",
    "0 11 42",
    "42 0 7",
    "57 7 4",
    "",
    "water-to-light map:",
    "88 18 7",
    "18 25 70",
    "",
    "light-to-temperature map:",
    "45 77 23",
    "81 45 19",
    "68 64 13",
    "",
    "temperature-to-humidity map:",
    "0 69 1",
    "1 0 69",
    "",
    "humidity-to-location map:",
    "60 56 37",
    "56 93 4",
];

const SCHEMATIC: [&str; 10] = [
    "467..114..",
    "...*......",
    "..35..633.",
    "......#...",
    "617*......",
    ".....+.58.",
    "..592.....",
    "......755.",
    "...$.*....",
    ".664.598..",
];

const CARDS: [&str; 6] = [
    "Card 1: 41 48 83 86 17 | 83 86  6 31 17  9 48 53",
    "Card 2: 13 32 20 16 61 | 61 30 68 82 17 32 24 19",
    "Card 3:  1 21 53 59 44 | 69 82 63 72 16 21 14  1",
    "Card 4: 41 92 73 84 69 | 59 84 76 51 58  5 54 83",
    "Card 5: 87 83 26 28 32 | 88 30 70 12 93 22 82 36",
    "Card 6: 31 18 13 56 72 | 74 77 10 23 35 67 36 11",
];

const GAMES: [&str; 5] = [
    "Game 1: 3 blue, 4 red; 1 red, 2 green, 6 blue; 2 green",
    "Game 2: 1 blue, 2 green; 3 green, 4 blue, 1 red; 1 green, 1 blue",
    "Game 3: 8 green, 6 blue, 20 red; 5 blue, 4 red, 13 green; 5 green, 1 red",
    "Game 4: 1 green, 3 red, 6 blue; 3 green, 6 red; 3 green, 15 blue, 14 red",
    "Game 5: 6 red, 1 blue, 3 green; 2 blue, 1 red, 2 green",
];

#[test]
fn digits_of_plain_line() {
    assert_eq!(calibration_value(b"1abc2", false), Some(12));
}

#[test]
fn digits_of_spelled_line() {
    assert_eq!(calibration_value(b"two1nine", true), Some(29));
}

#[test]
fn single_digit_is_first_and_last() {
    assert_eq!(calibration_value(b"treb7uchet", false), Some(77));
    assert_eq!(calibration_value(b"xx2yy", true), Some(22));
}

#[test]
fn spelled_digits_may_overlap() {
    assert_eq!(calibration_value(b"oneight", true), Some(18));
    assert_eq!(calibration_value(b"xtwone3four", true), Some(24));
    assert_eq!(calibration_value(b"oneight", false), None);
}

#[test]
fn line_without_digit_has_no_value() {
    assert_eq!(calibration_value(b"abc", false), None);
    assert_eq!(calibration_value(b"", true), None);
}

#[test]
fn zero_counts_only_without_words() {
    assert_eq!(calibration_value(b"a0b", false), Some(0));
    assert_eq!(calibration_value(b"0one0", true), Some(11));
}

#[test]
fn calibration_sums() {
    let plain = lines(&["1abc2", "pqr3stu8vwx", "a1b2c3d4e5f", "treb7uchet"]);
    assert_eq!(calibration_sum(&plain, false), Some(142));
    let spelled = lines(&[
        "two1nine",
        "eightwothree",
        "abcone2threexyz",
        "xtwone3four",
        "4nineeightseven2",
        "zoneight234",
        "7pqrstsixteen",
    ]);
    assert_eq!(calibration_sum(&spelled, true), Some(281));
    assert_eq!(calibration_sum(&lines(&["12", "none"]), false), None);
}

#[test]
fn round_within_bag_is_valid() {
    let round = Round::new(b" 3 blue, 4 red").unwrap();
    assert_eq!(round, Round { r: 4, g: 0, b: 3 });
    assert!(round.is_valid(&Config::bag()));
}

#[test]
fn round_over_bag_is_invalid() {
    let round = Round::new(b"20 red").unwrap();
    assert!(!round.is_valid(&Config::bag()));
}

#[test]
fn unknown_colour_is_rejected() {
    assert_eq!(Round::new(b"3 purple"), None);
    assert_eq!(Round::new(b"blue 3"), None);
    assert_eq!(Round::new(b""), None);
}

#[test]
fn power_with_missing_colour_is_zero() {
    let rounds = vec![Round { r: 1, g: 2, b: 0 }, Round { r: 3, g: 0, b: 0 }];
    assert_eq!(game_power(&rounds), 0);
    let mut game = Game::new();
    game.update(&Round { r: 4, g: 2, b: 6 });
    game.update(&Round { r: 1, g: 3, b: 6 });
    assert_eq!(game, Game { r: 4, g: 3, b: 6 });
    assert_eq!(game.power(), 72);
}

#[test]
fn games_are_read() {
    let (id, rounds) = parse_game(GAMES[0].as_bytes()).unwrap();
    assert_eq!(id, 1);
    assert_eq!(rounds.len(), 3);
    assert_eq!(rounds[1], Round { r: 1, g: 2, b: 6 });
    assert_eq!(parse_game(b"Round 1: 3 blue"), None);
    assert_eq!(parse_game(b"Game 1 3 blue"), None);
}

#[test]
fn possible_games_and_powers() {
    let games = lines(&GAMES);
    assert_eq!(possible_id_sum(&games), Some(8));
    assert_eq!(power_sum(&games), Some(2286));
}

#[test]
fn number_next_to_symbol_counts() {
    assert_eq!(engine_part_sum(&lines(&["12*"])), Some(12));
    assert_eq!(engine_part_sum(&lines(&["#12"])), Some(12));
}

#[test]
fn number_two_columns_from_symbol_does_not_count() {
    assert_eq!(engine_part_sum(&lines(&["12.*"])), Some(0));
    assert_eq!(engine_part_sum(&lines(&["*.12"])), Some(0));
}

#[test]
fn diagonal_neighbours_count() {
    assert_eq!(engine_part_sum(&lines(&["..5", "*..", "..."])), Some(0));
    assert_eq!(engine_part_sum(&lines(&[".5.", "*..", "..."])), Some(5));
    assert_eq!(engine_part_sum(&lines(&["...", "..5", "*.."])), Some(0));
}

#[test]
fn gear_with_two_numbers_gives_product() {
    assert_eq!(engine_gear_sum(&lines(&["1.2", ".*.", "..."])), Some(2));
}

#[test]
fn gear_with_three_numbers_gives_nothing() {
    assert_eq!(engine_gear_sum(&lines(&["1.2", ".*.", "3.."])), Some(0));
}

#[test]
fn schematic_sums() {
    let grid = lines(&SCHEMATIC);
    assert_eq!(engine_part_sum(&grid), Some(4361));
    assert_eq!(engine_gear_sum(&grid), Some(467835));
}

#[test]
fn schematic_scans() {
    let grid = lines(&["467..114..", "...*......"]);
    let numbers = scan_numbers(&grid).unwrap();
    assert_eq!(
        numbers,
        vec![
            PartNumber { row: 0, col: 0, len: 3, value: 467 },
            PartNumber { row: 0, col: 5, len: 3, value: 114 },
        ]
    );
    assert_eq!(scan_marks(&grid, false), vec![Mark { row: 1, col: 3 }]);
    assert!(is_adjacent(&numbers[0], &Mark { row: 1, col: 3 }));
    assert!(!is_adjacent(&numbers[1], &Mark { row: 1, col: 3 }));
    assert_eq!(scan_numbers(&lines(&["99999999999999999999999"])), None);
}

#[test]
fn overlap_and_score_of_first_card() {
    let (winning, ours) = parse_card(CARDS[0].as_bytes()).unwrap();
    assert_eq!(winning, vec![41, 48, 83, 86, 17]);
    assert_eq!(overlap_count(&winning, &ours), 4);
    assert_eq!(card_score(4), Some(8));
}

#[test]
fn repeated_numbers_count_once() {
    assert_eq!(overlap_count(&vec![5, 5, 7], &vec![5, 5, 5]), 1);
    assert_eq!(card_overlap(b"Card 9: 1 1 2 | 1 2 2"), Some(2));
}

#[test]
fn scores_of_small_counts() {
    assert_eq!(card_score(0), Some(0));
    assert_eq!(card_score(1), Some(1));
    assert_eq!(card_score(64), Some(1u64 << 63));
    assert_eq!(card_score(65), None);
}

#[test]
fn malformed_cards_are_rejected() {
    assert_eq!(parse_card(b"Card 1 41 | 3"), None);
    assert_eq!(parse_card(b"Card 1: 41 3"), None);
    assert_eq!(parse_card(b"Card 1: 4x | 3"), None);
}

#[test]
fn copies_propagate() {
    assert_eq!(total_cards(&vec![4, 2, 2, 1, 0, 0]), Some(30));
    assert_eq!(total_cards(&vec![]), Some(0));
    assert_eq!(total_cards(&vec![3]), Some(1));
}

#[test]
fn card_totals() {
    let cards = lines(&CARDS);
    assert_eq!(score_total(&cards), Some(13));
    assert_eq!(card_count_total(&cards), Some(30));
    assert_eq!(card_count_total(&lines(&["Card 1: 1 | 1", "bad"])), None);
}

#[test]
fn table_defaults_to_one() {
    let mut table = DefaultValueVec::new();
    assert_eq!(table.get(3), 1);
    table.add(5, 4);
    assert_eq!(table.get(5), 5);
    assert_eq!(table.get(4), 1);
    table.add(0, 2);
    assert_eq!(table.get(0), 3);
}

#[test]
fn single_range_stage() {
    let mut stage = RangeMap::new();
    assert!(stage.feed(b"50 98 2"));
    assert_eq!(stage.apply(98), Some(50));
    assert_eq!(stage.apply(99), Some(51));
    assert_eq!(stage.apply(79), Some(79));
}

#[test]
fn range_end_is_excluded() {
    let range = Range::new(b"50 98 2").unwrap();
    assert_eq!(range.apply(97), None);
    assert_eq!(range.apply(98), Some(50));
    assert_eq!(range.apply(100), None);
    let mut stage = RangeMap::new();
    assert!(stage.feed(b"50 98 2"));
    assert_eq!(stage.apply(100), Some(100));
}

#[test]
fn first_matching_range_wins() {
    let mut stage = RangeMap::new();
    assert!(stage.feed(b"0 10 5"));
    assert!(stage.feed(b"100 10 5"));
    assert_eq!(stage.apply(12), Some(2));
}

#[test]
fn malformed_ranges_are_rejected() {
    assert!(Range::new(b"1 2").is_none());
    assert!(Range::new(b"1 2 3 4").is_none());
    assert!(Range::new(b"1 x 3").is_none());
    assert!(Range::new(b"1 9223372036854775807 1").is_none());
    let mut stage = RangeMap::new();
    assert!(!stage.feed(b"seeds"));
    assert_eq!(stage.ranges.len(), 0);
}

#[test]
fn seeds_are_read() {
    assert_eq!(parse_seeds(b"seeds: 79 14 55 13"), Some(vec![79, 14, 55, 13]));
    assert_eq!(parse_seeds(b"seed: 79"), None);
    assert_eq!(expand_seed_ranges(&vec![79, 3, 5, 2]), Some(vec![79, 80, 81, 5, 6]));
    assert_eq!(expand_seed_ranges(&vec![79, 3, 5]), None);
    assert_eq!(header_index(b"water-to-light map:"), Some(3));
    assert_eq!(header_index(b"water-to-light"), None);
}

#[test]
fn almanac_locations() {
    let text = lines(&ALMANAC);
    let almanac = Almanac::new(&text, 1).unwrap();
    assert_eq!(almanac.location(79), Some(82));
    assert_eq!(almanac.location(14), Some(43));
    assert_eq!(almanac.location(55), Some(86));
    assert_eq!(almanac.location(13), Some(35));
    assert_eq!(almanac.resolve(&vec![79, 14, 55, 13]), Some(35));
    assert_eq!(almanac.resolve(&vec![]), None);
}

#[test]
fn lowest_locations() {
    let text = lines(&ALMANAC);
    assert_eq!(lowest_location(&text, false), Some(35));
    assert_eq!(lowest_location(&text, true), Some(46));
}

#[test]
fn data_before_header_is_rejected() {
    assert!(Almanac::new(&lines(&["seeds: 1", "1 2 3"]), 1).is_none());
    assert_eq!(lowest_location(&lines(&["seeds: 1", "1 2 3"]), false), None);
    assert_eq!(lowest_location(&lines(&[]), false), None);
}

#[test]
fn solvers_are_deterministic() {
    let text = lines(&ALMANAC);
    assert_eq!(lowest_location(&text, true), lowest_location(&text, true));
    let grid = lines(&SCHEMATIC);
    assert_eq!(engine_gear_sum(&grid), engine_gear_sum(&grid));
    let cards = lines(&CARDS);
    assert_eq!(card_count_total(&cards), card_count_total(&cards));
    let games = lines(&GAMES);
    assert_eq!(power_sum(&games), power_sum(&games));
    let plain = lines(&["1abc2", "pqr3stu8vwx"]);
    assert_eq!(calibration_sum(&plain, true), calibration_sum(&plain, true));
}

#[test]
fn signed_almanac_numbers() {
    let range = Range::new(b"-5 10 3").unwrap();
    assert_eq!((range.source_start, range.source_end, range.delta), (10, 13, -15));
    assert_eq!(range.apply(12), Some(-3));
    let range = Range::new(b"50 98 2").unwrap();
    assert_eq!((range.source_start, range.source_end, range.delta), (98, 100, -48));
    assert_eq!(parse_seeds(b"seeds: -5 +3 7"), Some(vec![-5, 3, 7]));
    assert_eq!(parse_seeds(b"seeds: -"), None);
    let text = lines(&["seeds: -5 4", "", "seed-to-soil map:", "100 -10 10"]);
    assert_eq!(lowest_location(&text, false), Some(4));
    assert_eq!(lowest_location(&text, true), Some(105));
}

#[test]
fn range_reaching_the_largest_value() {
    let range = Range::new(b"9223372036854775807 0 1").unwrap();
    assert_eq!(range.apply(0), Some(i64::MAX));
    let range = Range::new(b"9223372036854775807 0 2").unwrap();
    assert_eq!((range.source_start, range.source_end, range.delta), (0, 2, i64::MAX));
    assert_eq!(range.apply(0), Some(i64::MAX));
    assert_eq!(range.apply(1), None);
    let mut stage = RangeMap::new();
    assert!(stage.feed(b"9223372036854775807 0 2"));
    assert_eq!(stage.apply(1), None);
    assert_eq!(stage.apply(2), Some(2));
    assert!(Range::new(b"0 -9223372036854775808 0").is_none());
    let range = Range::new(b"-1 -9223372036854775808 0").unwrap();
    assert_eq!(range.delta, i64::MAX);
}

#[test]
fn overflowing_seed_has_no_location() {
    let text = lines(&["seeds: 1 5", "", "seed-to-soil map:", "9223372036854775807 0 2"]);
    let almanac = Almanac::new(&text, 1).unwrap();
    assert_eq!(almanac.location(1), None);
    assert_eq!(almanac.location(5), Some(5));
    assert_eq!(almanac.resolve(&vec![5, 1]), None);
    assert_eq!(almanac.resolve(&vec![5]), Some(5));
    assert_eq!(lowest_location(&text, false), None);
    let fine = lines(&["seeds: 0 5", "", "seed-to-soil map:", "9223372036854775807 0 2"]);
    assert_eq!(lowest_location(&fine, false), Some(5));
}
