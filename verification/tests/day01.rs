use advent::day01::{
    extract_numbers_1, extract_numbers_2, part_1, part_2, solve_with_extractor, try_calibrate,
    try_extract_numbers_2, try_part_1, try_part_2,
};

const DIGIT_LINES: &str = "1abc2\npqr3stu8vwx\na1b2c3d4e5f\ntreb7uchet";

const WORD_LINES: &str = "two1nine\neightwothree\nabcone2threexyz\nxtwone3four\n4nineeightseven2\nzoneight234\n7pqrstsixteen";

#[test]
fn extract_numbers_1_test_case_1() {
    assert_eq!(vec![1, 2], extract_numbers_1("1abc2"));
}

#[test]
fn extract_numbers_1_test_case_2() {
    assert_eq!(vec![3, 8], extract_numbers_1("pqr3stu8vwx"));
}

#[test]
fn extract_numbers_1_test_case_3() {
    assert_eq!(vec![1, 2, 3, 4, 5], extract_numbers_1("a1b2c3d4e5f"));
}

#[test]
fn extract_numbers_1_test_case_4() {
    assert_eq!(vec![7], extract_numbers_1("treb7uchet"));
}

#[test]
fn extract_numbers_2_test_case_1() {
    assert_eq!(vec![2, 1, 9], extract_numbers_2("two1nine"));
}

#[test]
fn extract_numbers_2_test_case_2() {
    assert_eq!(vec![8, 2, 3], extract_numbers_2("eightwothree"));
}

#[test]
fn extract_numbers_2_test_case_3() {
    assert_eq!(vec![1, 2, 3], extract_numbers_2("abcone2threexyz"));
}

#[test]
fn extract_numbers_2_test_case_4() {
    assert_eq!(vec![2, 1, 3, 4], extract_numbers_2("xtwone3four"));
}

#[test]
fn extract_numbers_2_test_case_5() {
    assert_eq!(vec![4, 9, 8, 7, 2], extract_numbers_2("4nineeightseven2"));
}

#[test]
fn extract_numbers_2_test_case_6() {
    assert_eq!(vec![1, 8, 2, 3, 4], extract_numbers_2("zoneight234"));
}

#[test]
fn extract_numbers_2_test_case_7() {
    assert_eq!(vec![7, 6], extract_numbers_2("7pqrstsixteen"));
}

#[test]
fn extract_numbers_1_finds_no_number_without_digits() {
    assert_eq!(Vec::<u32>::new(), extract_numbers_1("abc"));
    assert_eq!(Vec::<u32>::new(), extract_numbers_1(""));
    assert_eq!(Vec::<u32>::new(), extract_numbers_1("one٣"));
}

#[test]
fn extract_numbers_2_reads_every_word() {
    assert_eq!(
        vec![1, 2, 3, 4, 5, 6, 7, 8, 9],
        extract_numbers_2("onetwothreefourfivesixseveneightnine")
    );
    assert_eq!(vec![8, 3, 7, 9], extract_numbers_2("eighthreesevenine"));
    assert_eq!(Vec::<u32>::new(), extract_numbers_2("on tw thre zero ten"));
}

#[test]
fn try_extract_numbers_2_wants_ascii() {
    assert_eq!(None, try_extract_numbers_2("one\u{e9}2"));
    assert_eq!(Some(vec![1, 2]), try_extract_numbers_2("one2"));
    assert_eq!(Some(vec![]), try_extract_numbers_2(""));
}

#[test]
fn day01_part_1_example() {
    assert_eq!("142", part_1(DIGIT_LINES));
    assert_eq!(Some("142".to_string()), try_part_1(DIGIT_LINES));
}

#[test]
fn day01_part_2_example() {
    assert_eq!("281", part_2(WORD_LINES));
    assert_eq!(Some("281".to_string()), try_part_2(WORD_LINES));
}

#[test]
fn day01_single_number_counts_twice() {
    assert_eq!("77", part_1("treb7uchet"));
    assert_eq!("77", part_1("treb7uchet\n"));
    assert_eq!("77", part_1("treb7uchet\r\n"));
}

#[test]
fn day01_no_lines_sum_to_zero() {
    assert_eq!("0", part_1(""));
    assert_eq!("0", part_2(""));
}

#[test]
fn day01_line_without_number_has_no_answer() {
    assert_eq!(None, try_part_1("1abc2\nabc\n3"));
    assert_eq!(None, try_part_1("1abc2\n\n3"));
    assert_eq!(None, try_part_2("one\nzero"));
    assert_eq!(Some("67".to_string()), try_part_1("1abc2\n3\n\r2"));
}

#[test]
fn day01_part_2_has_no_answer_for_text_that_is_not_ascii() {
    assert_eq!(None, try_part_2("1\u{e9}2"));
    assert_eq!(Some("12".to_string()), try_part_1("1\u{e9}2"));
}

fn constant_extractor(_line: &str) -> Vec<u32> {
    vec![4, 0, 2]
}

fn length_extractor(line: &str) -> Vec<u32> {
    vec![line.len() as u32]
}

#[test]
fn solve_with_extractor_uses_the_extractor() {
    assert_eq!("126", solve_with_extractor("a\nb\nc", constant_extractor));
    assert_eq!("55", solve_with_extractor("a\nbbbb", length_extractor));
    assert_eq!("142", solve_with_extractor(DIGIT_LINES, extract_numbers_1));
    assert_eq!("281", solve_with_extractor(WORD_LINES, extract_numbers_2));
}

#[test]
fn try_calibrate_sums_first_and_last() {
    assert_eq!(Some(0), try_calibrate(&vec![]));
    assert_eq!(Some(12 + 38 + 15 + 77), try_calibrate(&vec![vec![1, 2], vec![3, 8], vec![1, 2, 3, 4, 5], vec![7]]));
    assert_eq!(None, try_calibrate(&vec![vec![1, 2], vec![]]));
}

#[test]
fn try_calibrate_detects_overflow() {
    assert_eq!(Some(4294967295), try_calibrate(&vec![vec![429496729, 5]]));
    assert_eq!(None, try_calibrate(&vec![vec![429496729, 6]]));
    assert_eq!(None, try_calibrate(&vec![vec![429496730, 0]]));
    assert_eq!(None, try_calibrate(&vec![vec![429496729, 5], vec![0, 1]]));
    assert_eq!(Some(4294967295), try_calibrate(&vec![vec![429496729, 4], vec![0, 1]]));
}

#[test]
fn extract_numbers_2_finds_one_number_at_an_offset_at_most() {
    for line in ["twone", "oneight", "nineight", "sevenine", "threeight", "fiveight", "eightwo"] {
        assert!(extract_numbers_2(line).len() <= line.len());
        assert_eq!(2, extract_numbers_2(line).len());
    }
}
