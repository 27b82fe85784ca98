use advent::day05::{
    part_1, part_2, solve_with, try_part_1, try_part_2, Almanac, Mapping, MaybeOverlap, Range,
};

const EXAMPLE: &str = "seeds: 79 14 55 13

seed-to-soil map:
50 98 2
52 50 48

soil-to-fertilizer map:
0 15 37
37 52 2
39 0 15

fertilizer-to-water map:
49 53 8
0 11 42
42 0 7
57 7 4

water-to-light map:
88 18 7
18 25 70

light-to-temperature map:
45 77 23
81 45 19
68 64 13

temperature-to-humidity map:
0 69 1
1 0 69

humidity-to-location map:
60 56 37
56 93 4";

#[test]
fn day05_part_1_test() {
    assert_eq!("35", part_1(EXAMPLE));
}

#[test]
fn day05_part_2_test() {
    assert_eq!("46", part_2(EXAMPLE));
}

#[test]
fn day05_try_parts_agree_on_the_example() {
    assert_eq!(Some("35".to_string()), try_part_1(EXAMPLE));
    assert_eq!(Some("46".to_string()), try_part_2(EXAMPLE));
}

#[test]
fn overlap_test_case_1() {
    let lhs = Range::new(0, 5);
    let rhs = Range::new(0, 5);
    let expected = MaybeOverlap { left: None, overlap: Range::try_from(0, 5), right: None };
    assert_eq!(lhs.test_overlap(&rhs), expected);
}

#[test]
fn overlap_test_case_2() {
    let lhs = Range::new(1, 3);
    let rhs = Range::new(0, 5);
    let expected = MaybeOverlap { left: Range::try_from(0, 1), overlap: Range::try_from(1, 4), right: Range::try_from(4, 5) };
    assert_eq!(lhs.test_overlap(&rhs), expected);
}

#[test]
fn overlap_test_case_3() {
    let lhs = Range::new(0, 5);
    let rhs = Range::new(1, 3);
    let expected = MaybeOverlap { left: None, overlap: Range::try_from(1, 4), right: None };
    assert_eq!(lhs.test_overlap(&rhs), expected);
}

#[test]
fn overlap_test_case_4() {
    let lhs = Range::new(1, 3);
    let rhs = Range::new(5, 5);
    let expected = MaybeOverlap { left: None, overlap: None, right: Range::try_from(5, 10) };
    assert_eq!(lhs.test_overlap(&rhs), expected);
}

#[test]
fn overlap_test_case_5() {
    let lhs = Range::new(5, 5);
    let rhs = Range::new(1, 3);
    let expected = MaybeOverlap { left: Range::try_from(1, 4), overlap: None, right: None };
    assert_eq!(lhs.test_overlap(&rhs), expected);
}

#[test]
fn overlap_test_case_6() {
    let lhs = Range::new(5, 5);
    let rhs = Range::new(10, 3);
    let expected = MaybeOverlap { left: None, overlap: None, right: Range::try_from(10, 13) };
    assert_eq!(lhs.test_overlap(&rhs), expected);
}

#[test]
fn overlap_test_case_7() {
    let lhs = Range::new(5, 5);
    let rhs = Range::new(9, 4);
    let expected = MaybeOverlap { left: None, overlap: Range::try_from(9, 10), right: Range::try_from(10, 13) };
    assert_eq!(lhs.test_overlap(&rhs), expected);
}

#[test]
fn overlap_test_case_8() {
    let lhs = Range::new(0, 5);
    let rhs = Range::new(3, 7);
    let expected = MaybeOverlap { left: None, overlap: Range::try_from(3, 5), right: Range::try_from(5, 10) };
    assert_eq!(lhs.test_overlap(&rhs), expected);
}

#[test]
fn overlap_test_case_9() {
    let lhs = Range::new(3, 7);
    let rhs = Range::new(0, 5);
    let expected = MaybeOverlap { left: Range::try_from(0, 3), overlap: Range::try_from(3, 5), right: None };
    assert_eq!(lhs.test_overlap(&rhs), expected);
}

fn range(start: usize, end: usize) -> Range {
    Range { start, end, len: end - start }
}

#[test]
fn new_sets_the_end() {
    assert_eq!(Range { start: 3, end: 10, len: 7 }, Range::new(3, 7));
    assert_eq!(Range { start: 3, end: 3, len: 0 }, Range::new(3, 0));
    assert_eq!(
        Range { start: usize::MAX - 1, end: usize::MAX, len: 1 },
        Range::new(usize::MAX - 1, 1)
    );
}

#[test]
fn try_from_wants_a_number_in_the_range() {
    assert_eq!(Some(Range { start: 3, end: 10, len: 7 }), Range::try_from(3, 10));
    assert_eq!(None, Range::try_from(3, 3));
    assert_eq!(None, Range::try_from(4, 3));
}

#[test]
fn test_overlap_of_an_empty_range_is_empty() {
    let parts = Range::new(0, 5).test_overlap(&Range::new(3, 0));
    assert_eq!(MaybeOverlap { left: None, overlap: None, right: None }, parts);
}

#[test]
fn translate_moves_the_part_within_the_source() {
    let mapping = Mapping { source: Range::new(50, 48), destination: Range::new(52, 48) };
    assert_eq!(
        MaybeOverlap { left: None, overlap: Some(range(81, 95)), right: None },
        mapping.translate(&Range::new(79, 14))
    );
    assert_eq!(
        MaybeOverlap {
            left: Some(range(40, 50)),
            overlap: Some(range(52, 100)),
            right: Some(range(98, 110)),
        },
        mapping.translate(&Range::new(40, 70))
    );
    assert_eq!(
        MaybeOverlap { left: Some(range(10, 20)), overlap: None, right: None },
        mapping.translate(&Range::new(10, 10))
    );
    let down = Mapping { source: Range::new(98, 2), destination: Range::new(50, 2) };
    assert_eq!(
        MaybeOverlap { left: Some(range(97, 98)), overlap: Some(range(50, 51)), right: None },
        down.translate(&Range::new(97, 2))
    );
}

#[test]
fn translate_reaches_the_largest_number() {
    let mapping =
        Mapping { source: Range::new(0, 10), destination: Range::new(usize::MAX - 10, 10) };
    assert_eq!(
        MaybeOverlap {
            left: None,
            overlap: Some(range(usize::MAX - 5, usize::MAX)),
            right: Some(range(10, 12)),
        },
        mapping.translate(&Range::new(5, 7))
    );
}

#[test]
fn seed_parsers_read_seeds() {
    assert_eq!(
        vec![Range::new(79, 1), Range::new(14, 1), Range::new(55, 1), Range::new(13, 1)],
        Almanac::part_1_seed_parser(" 79 14 55 13")
    );
    assert_eq!(
        vec![Range::new(79, 14), Range::new(55, 13)],
        Almanac::part_2_seed_parser(" 79 14 55 13")
    );
    assert_eq!(Vec::<Range>::new(), Almanac::part_1_seed_parser(""));
    assert_eq!(Vec::<Range>::new(), Almanac::part_2_seed_parser(" "));
    assert_eq!(
        vec![Range::new(1, 2), Range::new(3, 4), Range::new(5, 6)],
        Almanac::part_2_seed_parser("1 2 3 4 5 6")
    );
}

#[test]
fn seed_parsers_refuse_what_cannot_be_read() {
    assert_eq!(None, Almanac::try_part_1_seed_parser("79 x"));
    assert_eq!(None, Almanac::try_part_2_seed_parser("79 x"));
    assert_eq!(None, Almanac::try_part_2_seed_parser("79 14 55"));
    assert_eq!(None, Almanac::try_part_2_seed_parser("79"));
    let last = usize::MAX.to_string();
    assert_eq!(None, Almanac::try_part_1_seed_parser(&last));
    assert_eq!(None, Almanac::try_part_2_seed_parser(&format!("1 {}", last)));
    assert_eq!(
        Some(vec![Range::new(0, usize::MAX)]),
        Almanac::try_part_2_seed_parser(&format!("0 {}", last))
    );
    assert_eq!(
        Some(vec![Range::new(usize::MAX - 1, 1)]),
        Almanac::try_part_1_seed_parser(&(usize::MAX - 1).to_string())
    );
}

#[test]
fn from_input_reads_seeds_and_stages() {
    let almanac = Almanac::from_input(EXAMPLE, Almanac::part_2_seed_parser);
    assert_eq!(vec![Range::new(79, 14), Range::new(55, 13)], almanac.seeds);
    assert_eq!(7, almanac.conversion_stages.len());
    assert_eq!(
        vec![
            Mapping { source: Range::new(98, 2), destination: Range::new(50, 2) },
            Mapping { source: Range::new(50, 48), destination: Range::new(52, 48) },
        ],
        almanac.conversion_stages[0]
    );
    assert_eq!(4, almanac.conversion_stages[2].len());
    assert_eq!(
        Mapping { source: Range::new(93, 4), destination: Range::new(56, 4) },
        almanac.conversion_stages[6][1]
    );
}

#[test]
fn from_input_passes_over_headings_and_further_numbers() {
    let almanac = Almanac::from_input("x:1\n\n1 2 3\n4 5 6 7\n\n\n\nh\n", Almanac::part_1_seed_parser);
    assert_eq!(vec![Range::new(1, 1)], almanac.seeds);
    assert_eq!(3, almanac.conversion_stages.len());
    assert_eq!(
        vec![Mapping { source: Range::new(5, 6), destination: Range::new(4, 6) }],
        almanac.conversion_stages[0]
    );
    assert_eq!(0, almanac.conversion_stages[1].len());
    assert_eq!(0, almanac.conversion_stages[2].len());
}

fn almanac(seeds: Vec<Range>, stages: Vec<Vec<(usize, usize, usize)>>) -> Almanac {
    Almanac {
        seeds,
        conversion_stages: stages
            .into_iter()
            .map(|stage| {
                stage
                    .into_iter()
                    .map(|(destination, source, len)| Mapping {
                        source: Range::new(source, len),
                        destination: Range::new(destination, len),
                    })
                    .collect()
            })
            .collect(),
    }
}

#[test]
fn map_seeds_without_stages_gives_the_seeds() {
    let seeds = vec![Range::new(79, 14), Range::new(55, 13)];
    assert_eq!(seeds.clone(), almanac(seeds, vec![]).map_seeds());
    assert_eq!(Vec::<Range>::new(), almanac(vec![], vec![vec![(1, 2, 3)]]).map_seeds());
}

#[test]
fn map_seeds_cuts_a_seed_at_the_ends_of_a_source() {
    // of 40..110 the part within 50..98 is moved by 2; what lies after the
    // source comes out as it is, what lies before it is taken again
    assert_eq!(
        vec![range(52, 100), range(98, 110), range(40, 50)],
        almanac(vec![Range::new(40, 70)], vec![vec![(52, 50, 48)]]).map_seeds()
    );
}

#[test]
fn map_seeds_takes_the_first_mapping_that_meets_a_seed() {
    assert_eq!(
        vec![range(100, 105)],
        almanac(vec![Range::new(0, 5)], vec![vec![(100, 0, 10), (200, 0, 10)]]).map_seeds()
    );
    // the part before the first source is tried against every mapping again
    assert_eq!(
        vec![range(105, 110), range(200, 205)],
        almanac(vec![Range::new(0, 10)], vec![vec![(105, 5, 5), (200, 0, 5)]]).map_seeds()
    );
    // the part after the first source is tried against no other mapping
    assert_eq!(
        vec![range(100, 105), range(5, 10)],
        almanac(vec![Range::new(0, 10)], vec![vec![(100, 0, 5), (200, 5, 5)]]).map_seeds()
    );
}

#[test]
fn map_seeds_runs_the_stages_in_order() {
    assert_eq!(
        vec![range(21, 22)],
        almanac(vec![Range::new(1, 1)], vec![vec![(11, 1, 1)], vec![(21, 11, 1), (31, 1, 1)]])
            .map_seeds()
    );
}

fn fixed_seeds(_text: &str) -> Vec<Range> {
    vec![Range::new(82, 1), Range::new(14, 1)]
}

#[test]
fn solve_with_uses_the_seed_parser() {
    assert_eq!("43", solve_with(EXAMPLE, fixed_seeds));
    assert_eq!("35", solve_with(EXAMPLE, Almanac::part_1_seed_parser));
    assert_eq!("46", solve_with(EXAMPLE, Almanac::part_2_seed_parser));
}

#[test]
fn day05_has_no_answer_for_what_cannot_be_read() {
    assert_eq!(None, try_part_1(""));
    assert_eq!(None, try_part_1("seeds 79 14"));
    assert_eq!(None, try_part_1("seeds: 79 x"));
    assert_eq!(None, try_part_1("seeds:"));
    assert_eq!(None, try_part_2("seeds: 79 14 55"));
    assert_eq!(None, try_part_1("seeds: 79\n\nmap:\n1 2"));
    assert_eq!(None, try_part_1("seeds: 79\n\nmap:\n1 2 x"));
    assert_eq!(Some("79".to_string()), try_part_1("seeds: 79\n\nmap:\n1 2 3\n\n4 5 6\n\n"));
    assert_eq!(None, try_part_1(&format!("seeds: 79\n\nmap:\n2 1 {}", usize::MAX)));
    assert_eq!(None, try_part_1(&format!("seeds: 79\n\nmap:\n1 2 {}", usize::MAX)));
    assert_eq!(Some("79".to_string()), try_part_1("seeds: 79"));
    assert_eq!(Some("79".to_string()), try_part_1("seeds: 79\n\n1 2 3"));
    assert_eq!(Some("80".to_string()), try_part_1("seeds: 79\n\nmap:\n1 0 100"));
    assert_eq!(Some("13".to_string()), try_part_2("seeds: 79 14 13 0"));
}

#[test]
fn map_seeds_keeps_as_many_numbers_as_went_in() {
    let almanac = Almanac::from_input(EXAMPLE, Almanac::part_2_seed_parser);
    let mapped = almanac.map_seeds();
    assert_eq!(27, mapped.iter().map(|r| r.end - r.start).sum::<usize>());
    assert!(mapped.iter().all(|r| r.start < r.end && r.end - r.start == r.len));
    let almanac = Almanac::from_input(EXAMPLE, Almanac::part_1_seed_parser);
    assert_eq!(4, almanac.map_seeds().len());
}

#[test]
fn map_seeds_gives_the_locations_of_the_example() {
    let almanac = Almanac::from_input(EXAMPLE, Almanac::part_1_seed_parser);
    assert_eq!(
        vec![Range::new(82, 1), Range::new(43, 1), Range::new(86, 1), Range::new(35, 1)],
        almanac.map_seeds()
    );
}
