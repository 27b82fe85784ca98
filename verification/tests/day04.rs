use advent::day04::{parse_cards, part_1, part_2, try_parse_cards, try_part_1, try_part_2, Card};

const EXAMPLE_GAME: &str = "Card 1: 41 48 83 86 17 | 83 86  6 31 17  9 48 53
Card 2: 13 32 20 16 61 | 61 30 68 82 17 32 24 19
Card 3:  1 21 53 59 44 | 69 82 63 72 16 21 14  1
Card 4: 41 92 73 84 69 | 59 84 76 51 58  5 54 83
Card 5: 87 83 26 28 32 | 88 30 70 12 93 22 82 36
Card 6: 31 18 13 56 72 | 74 77 10 23 35 67 36 11";

#[test]
fn day04_part_1_test() {
    assert_eq!("13", part_1(EXAMPLE_GAME));
}

#[test]
fn day04_part_2_test() {
    assert_eq!("30", part_2(EXAMPLE_GAME));
}

#[test]
fn day04_try_parts_agree_on_the_example() {
    assert_eq!(Some("13".to_string()), try_part_1(EXAMPLE_GAME));
    assert_eq!(Some("30".to_string()), try_part_2(EXAMPLE_GAME));
}

fn card(winning: Vec<usize>, played: Vec<usize>) -> Card {
    Card { winning, played }
}

#[test]
fn matches_counts_the_numbers_played_that_win() {
    assert_eq!(4, card(vec![41, 48, 83, 86, 17], vec![83, 86, 6, 31, 17, 9, 48, 53]).matches());
    assert_eq!(0, card(vec![1, 2], vec![3, 4]).matches());
    assert_eq!(0, card(vec![], vec![3, 4]).matches());
    assert_eq!(0, card(vec![3, 4], vec![]).matches());
}

#[test]
fn matches_counts_a_number_played_twice_twice() {
    assert_eq!(2, card(vec![5], vec![5, 5]).matches());
    assert_eq!(1, card(vec![5, 5], vec![5]).matches());
}

#[test]
fn points_double_with_each_match() {
    assert_eq!(0, card(vec![1], vec![2]).points());
    assert_eq!(1, card(vec![1], vec![1]).points());
    assert_eq!(2, card(vec![1, 2], vec![1, 2]).points());
    assert_eq!(8, card(vec![41, 48, 83, 86, 17], vec![83, 86, 6, 31, 17, 9, 48, 53]).points());
    assert_eq!(512, card(vec![7], vec![7; 10]).points());
}

#[test]
fn try_points_stops_where_the_shift_would_overflow() {
    let bits = usize::BITS as usize;
    assert_eq!(Some(1usize << (bits - 1)), card(vec![7], vec![7; bits]).try_points());
    assert_eq!(None, card(vec![7], vec![7; bits + 1]).try_points());
}

#[test]
fn parse_cards_reads_both_lists() {
    let cards = parse_cards("Card 1: 41 48 | 83  6\nCard 2: | 5\nx:1|");
    assert_eq!(3, cards.len());
    assert_eq!(vec![41, 48], cards[0].winning);
    assert_eq!(vec![83, 6], cards[0].played);
    assert_eq!(Vec::<usize>::new(), cards[1].winning);
    assert_eq!(vec![5], cards[1].played);
    assert_eq!(vec![1], cards[2].winning);
    assert_eq!(Vec::<usize>::new(), cards[2].played);
    assert_eq!(0, parse_cards("").len());
}

#[test]
fn try_parse_cards_refuses_what_cannot_be_read() {
    assert!(try_parse_cards("Card 1 41 | 83").is_none());
    assert!(try_parse_cards("Card 1: 41 83").is_none());
    assert!(try_parse_cards("Card 1: 41 | x").is_none());
    assert!(try_parse_cards("Card 1: 4 1 | 83 | 5").is_none());
    assert!(try_parse_cards("Card 1: 41 | 83\n\nCard 2: 1 | 2").is_none());
    assert!(try_parse_cards("Card 1| 41 : 83").is_none());
    assert!(try_parse_cards("Card 1: 41 | 83").is_some());
}

#[test]
fn day04_no_cards_sum_to_zero() {
    assert_eq!("0", part_1(""));
    assert_eq!("0", part_2(""));
}

#[test]
fn day04_part_2_counts_copies() {
    // card 1 wins a copy of card 2; both cards 2 win a copy of card 3
    assert_eq!("6", part_2("a: 1 | 1\nb: 1 | 1\nc: 1 | 2"));
    assert_eq!("3", part_2("a: 1 | 2\nb: 1 | 2\nc: 1 | 2"));
    // card 1 wins copies of cards 2 and 3, and each card 2 one of card 3
    assert_eq!("7", part_2("a: 1 2 | 1 2\nb: 1 | 1\nc: 1 | 2"));
}

#[test]
fn day04_part_2_has_no_answer_where_a_card_wins_beyond_the_last() {
    assert_eq!(None, try_part_2("a: 1 | 1"));
    assert_eq!(None, try_part_2("a: 1 | 2\nb: 1 | 1"));
    assert_eq!(None, try_part_2("a: 1 2 | 1 2\nb: 1 | 3"));
    assert_eq!(Some("3".to_string()), try_part_2("a: 1 | 1\nb: 1 | 3"));
    assert_eq!(Some("13".to_string()), try_part_1("a: 1 2 3 4 | 1 2 3 4\nb: 1 2 3 | 3 2 1\nc: 1 | 1"));
}

fn doubling_cards(n: usize) -> String {
    // each card wins a copy of every card after it
    let mut text = String::new();
    for j in 0..n {
        text.push_str("c: 7 |");
        for _ in 0..n - 1 - j {
            text.push_str(" 7");
        }
        text.push_str("\n");
    }
    text
}

#[test]
fn day04_part_2_detects_overflow() {
    let bits = usize::BITS as usize;
    assert_eq!(Some("15".to_string()), try_part_2(&doubling_cards(4)));
    assert_eq!(Some(usize::MAX.to_string()), try_part_2(&doubling_cards(bits)));
    assert_eq!(None, try_part_2(&doubling_cards(bits + 1)));
}

#[test]
fn day04_part_1_detects_overflow() {
    let bits = usize::BITS as usize;
    let row = vec!["7"; bits].join(" ");
    let one = format!("c: 7 | {}", row);
    assert_eq!(Some((1usize << (bits - 1)).to_string()), try_part_1(&one));
    let two = format!("c: 7 | {}\nc: 7 | {}", row, row);
    assert_eq!(None, try_part_1(&two));
    let long = format!("c: 7 | {} 7", row);
    assert_eq!(None, try_part_1(&long));
}
