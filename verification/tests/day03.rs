use advent::day03::{
    extract_adjacent_symbol_indexes, extract_numbers, line_length, part_1, part_2, try_part_1,
    try_part_2, Number,
};

const EXAMPLE_SCHEMATIC: &str = "467..114..
...*......
..35..633.
......#...
617*......
.....+.58.
..592.....
......755.
...$.*....
.664.598..";

const TEST_SCHEMATIC: &str = ".....
..515
.....
.....
.....";

const TEST_SCHEMATIC_2: &str = "......
628...
......
505+..
......
......";

const TEST_SCHEMATIC_3: &str = "....
2.2.
.*..
1.1.";

const TEST_SCHEMATIC_4: &str = ".......5......
..7*..*.....4*
...*13*......9
.......15.....
..............
..............
..............
..............
..............
..............
21............
...*9.........";

const TEST_SCHEMATIC_5: &str = "100
200";

const TEST_SCHEMATIC_6: &str = "2.2.....$123
............";

const TEST_SCHEMATIC_7: &str = "......
...628
......
*0005.
......
......";

fn check_numbers(input: &str, values: Vec<usize>, indexes: Vec<usize>, lengths: Vec<usize>) {
    let input: Vec<char> = input.chars().collect();
    assert_eq!(extract_numbers(&input).iter().map(|n| n.value).collect::<Vec<usize>>(), values);
    assert_eq!(extract_numbers(&input).iter().map(|n| n.index).collect::<Vec<usize>>(), indexes);
    assert_eq!(extract_numbers(&input).iter().map(|n| n.length).collect::<Vec<usize>>(), lengths);
}

#[test]
fn extract_numbers_test_case_1() {
    check_numbers(EXAMPLE_SCHEMATIC, vec![467,114,35,633,617,58,592,755,664,598], vec![0, 5, 24, 28, 44, 62, 68, 83, 100, 104], vec![3, 3, 2, 3, 3, 2, 3, 3, 3, 3]);
}

#[test]
fn extract_numbers_test_case_2() {
    check_numbers(TEST_SCHEMATIC, vec![515], vec![8], vec![3]);
}

#[test]
fn extract_numbers_test_case_3() {
    check_numbers(TEST_SCHEMATIC_2, vec![628, 505], vec![7, 21], vec![3, 3]);
}

#[test]
fn extract_numbers_test_case_4() {
    check_numbers(TEST_SCHEMATIC_3, vec![2, 2, 1, 1], vec![5, 7, 15, 17], vec![1, 1, 1, 1]);
}

#[test]
fn extract_numbers_test_case_5() {
    check_numbers(TEST_SCHEMATIC_4, vec![5, 7, 4, 13, 9, 15, 21, 9], vec![7, 17, 27, 34, 43, 52, 150, 169], vec![1, 1, 1, 2, 1, 2, 2, 1]);
}

#[test]
fn extract_numbers_test_case_6() {
    check_numbers(TEST_SCHEMATIC_5, vec![100, 200], vec![0, 4], vec![3, 3]);
}

#[test]
fn extract_numbers_test_case_7() {
    check_numbers(TEST_SCHEMATIC_6, vec![2, 2, 123], vec![0, 2, 9], vec![1, 1, 3]);
}

#[test]
fn extract_numbers_test_case_8() {
    check_numbers(TEST_SCHEMATIC_7, vec![628, 5], vec![10,22], vec![3, 4]);
}

#[test]
fn day03_part_1_test_case_1() {
    assert_eq!(part_1(EXAMPLE_SCHEMATIC), "4361");
    assert_eq!(try_part_1(EXAMPLE_SCHEMATIC), Some("4361".to_string()));
}

#[test]
fn day03_part_1_test_case_2() {
    assert_eq!(part_1(TEST_SCHEMATIC), "0");
    assert_eq!(try_part_1(TEST_SCHEMATIC), Some("0".to_string()));
}

#[test]
fn day03_part_1_test_case_3() {
    assert_eq!(part_1(TEST_SCHEMATIC_2), "505");
    assert_eq!(try_part_1(TEST_SCHEMATIC_2), Some("505".to_string()));
}

#[test]
fn day03_part_1_test_case_4() {
    assert_eq!(part_1(TEST_SCHEMATIC_3), "6");
    assert_eq!(try_part_1(TEST_SCHEMATIC_3), Some("6".to_string()));
}

#[test]
fn day03_part_1_test_case_5() {
    assert_eq!(part_1(TEST_SCHEMATIC_4), "62");
    assert_eq!(try_part_1(TEST_SCHEMATIC_4), Some("62".to_string()));
}

#[test]
fn day03_part_1_test_case_6() {
    assert_eq!(part_1(TEST_SCHEMATIC_5), "0");
    assert_eq!(try_part_1(TEST_SCHEMATIC_5), Some("0".to_string()));
}

#[test]
fn day03_part_1_test_case_7() {
    assert_eq!(part_1(TEST_SCHEMATIC_6), "123");
    assert_eq!(try_part_1(TEST_SCHEMATIC_6), Some("123".to_string()));
}

#[test]
fn day03_part_1_test_case_8() {
    assert_eq!(part_1(TEST_SCHEMATIC_7), "5");
    assert_eq!(try_part_1(TEST_SCHEMATIC_7), Some("5".to_string()));
}

#[test]
fn day03_part_2_test_case_1() {
    assert_eq!(part_2(EXAMPLE_SCHEMATIC), "467835");
    assert_eq!(try_part_2(EXAMPLE_SCHEMATIC), Some("467835".to_string()));
}

#[test]
fn day03_part_2_counts_only_stars_with_two_numbers() {
    assert_eq!(part_2(TEST_SCHEMATIC_3), "0");
    assert_eq!(part_2(TEST_SCHEMATIC_4), "478");
    assert_eq!(part_2("..2\n.*.\n3.."), "6");
    assert_eq!(part_2("..2\n.*5\n3.."), "0");
}

#[test]
fn extract_numbers_drops_a_single_digit_in_the_last_position() {
    check_numbers("..5", vec![], vec![], vec![]);
    check_numbers("5", vec![], vec![], vec![]);
    check_numbers("..55", vec![55], vec![2], vec![2]);
    check_numbers("5.5", vec![5], vec![0], vec![1]);
    check_numbers("", vec![], vec![], vec![]);
}

#[test]
fn extract_numbers_wraps_values_round() {
    check_numbers(
        "18446744073709551616.",
        vec![18446744073709551616u128 as usize],
        vec![0],
        vec![20],
    );
    check_numbers("18446744073709551615.", vec![usize::MAX], vec![0], vec![20]);
}

fn number(index: usize, length: usize, value: usize) -> Number {
    Number { index, length, value }
}

#[test]
fn extract_adjacent_symbol_indexes_looks_above_around_and_below() {
    let input: Vec<char> = "*+*\n+1+\n*+*\n".chars().collect();
    assert_eq!(
        extract_adjacent_symbol_indexes(&input, number(5, 1, 1), 4, &['*', '+']),
        vec![0, 1, 2, 4, 6, 8, 9, 10]
    );
    assert_eq!(
        extract_adjacent_symbol_indexes(&input, number(5, 1, 1), 4, &['*']),
        vec![0, 2, 8, 10]
    );
    assert_eq!(
        extract_adjacent_symbol_indexes(&input, number(5, 1, 1), 4, &[]),
        Vec::<usize>::new()
    );
}

#[test]
fn extract_adjacent_symbol_indexes_wraps_round_at_the_start() {
    let input: Vec<char> = "12*\n*.*".chars().collect();
    // in the first position the row of the number itself is empty
    assert_eq!(
        extract_adjacent_symbol_indexes(&input, number(0, 2, 12), 4, &['*']),
        vec![4, 6]
    );
    let input: Vec<char> = ".12*".chars().collect();
    assert_eq!(
        extract_adjacent_symbol_indexes(&input, number(1, 2, 12), 5, &['*']),
        vec![3]
    );
}

#[test]
fn extract_adjacent_symbol_indexes_may_name_a_position_twice() {
    // a line length of 0 lays the three rows on top of each other
    let input: Vec<char> = ".7*".chars().collect();
    assert_eq!(
        extract_adjacent_symbol_indexes(&input, number(1, 1, 7), 0, &['*']),
        vec![2, 2, 2]
    );
    assert_eq!(
        extract_adjacent_symbol_indexes(&input, number(1, 1, 7), usize::MAX, &['*']),
        vec![2, 2]
    );
}

#[test]
fn line_length_counts_bytes() {
    assert_eq!(line_length("467..114..\n...*"), Some(11));
    assert_eq!(line_length("\n"), Some(1));
    assert_eq!(line_length("abc"), None);
    assert_eq!(line_length(""), None);
    assert_eq!(line_length("\u{e9}\u{20ac}\n"), Some(6));
}

#[test]
fn day03_has_no_answer_without_a_line_feed() {
    assert_eq!(try_part_1("467*"), None);
    assert_eq!(try_part_2("467*"), None);
    assert_eq!(try_part_1(""), None);
}

#[test]
fn day03_part_1_detects_overflow() {
    let fits = format!(".{}*\n.1*.", usize::MAX - 1);
    assert_eq!(try_part_1(&fits), Some(usize::MAX.to_string()));
    let over = format!(".{}*\n.2*.", usize::MAX - 1);
    assert_eq!(try_part_1(&over), None);
}

#[test]
fn day03_part_2_detects_overflow() {
    let fits = format!(".{}*1.\n", usize::MAX);
    assert_eq!(try_part_2(&fits), Some(usize::MAX.to_string()));
    let over = format!(".{}*2.\n", usize::MAX);
    assert_eq!(try_part_2(&over), None);
}

#[test]
fn day03_part_2_groups_numbers_by_star() {
    assert_eq!(part_2(".1*2\n....\n.3*4\n"), "14");
    assert_eq!(part_2(".1*2\n....\n.3*.\n"), "2");
    // both stars have three numbers next to them
    assert_eq!(part_2("12...\n*3...\n.4*5."), "0");
}
