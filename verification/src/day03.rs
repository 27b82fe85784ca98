//! Engine schematic: the numbers of a character grid that touch a symbol,
//! and the pairs of numbers that touch a common star.
//!
//! The grid is read as one row of characters, line feeds included, and
//! positions are counted along that row. All position arithmetic wraps
//! round, so a neighbourhood that would start before the first position
//! is empty or lies wholly beyond the text.
use crate::seqs::{fits, lemma_sum_all, lemma_sum_prefix, lemma_sum_take, sum};
use crate::text::{chars_of, decimal, digit_value, is_digit, to_decimal, to_digit};
use itertools::Itertools;
use std::collections::HashMap;
use vstd::prelude::*;
use vstd::std_specs::hash::group_hash_axioms;
use vstd::utf8::encode_utf8;

verus! {

/// A number in the schematic: where its first digit stands, how many
/// digits it has, and its value, reduced modulo 2^`usize::BITS`.
#[derive(Clone, Copy, Debug, PartialEq, Eq)]
pub struct Number {
    pub index: usize,
    pub length: usize,
    pub value: usize,
}

/// The first position at or after `from` whose character is a digit, if
/// `digit` is false, or is none, if it is true; the length of `s` if there
/// is no such position.
pub open spec fn digit_run_end(s: Seq<char>, from: int, digit: bool) -> int
    decreases s.len() - from,
{
    if 0 <= from < s.len() && is_digit(s[from]) == digit {
        digit_run_end(s, from + 1, digit)
    } else {
        from
    }
}

/// `digit_run_end` stops at the first character that is not of the kind
/// it passes over.
pub proof fn lemma_digit_run_end(s: Seq<char>, from: int, digit: bool)
    requires
        0 <= from <= s.len(),
    ensures
        from <= digit_run_end(s, from, digit) <= s.len(),
        forall|j: int| from <= j < digit_run_end(s, from, digit) ==> is_digit(s[j]) == digit,
        digit_run_end(s, from, digit) < s.len() ==> is_digit(s[digit_run_end(s, from, digit)])
            != digit,
    decreases s.len() - from,
{
    if from < s.len() && is_digit(s[from]) == digit {
        lemma_digit_run_end(s, from + 1, digit);
    }
}

/// A run of characters of one kind that ends at `to` is where
/// `digit_run_end` stops.
pub proof fn lemma_digit_run_is(s: Seq<char>, from: int, to: int, digit: bool)
    requires
        0 <= from <= to <= s.len(),
        forall|j: int| from <= j < to ==> is_digit(s[j]) == digit,
        to < s.len() ==> is_digit(s[to]) != digit,
    ensures
        digit_run_end(s, from, digit) == to,
    decreases to - from,
{
    if from < to {
        lemma_digit_run_is(s, from + 1, to, digit);
    }
}

/// The value of the digits `s`, computed with wrapping multiplication and
/// addition.
pub open spec fn wrapping_value(s: Seq<char>) -> usize
    decreases s.len(),
{
    if s.len() == 0 {
        0
    } else {
        wrapping_value(s.drop_last()).wrapping_mul(10).wrapping_add(digit_value(s.last()) as usize)
    }
}

/// The number whose digits stand from `a` up to `b`.
pub open spec fn number_at(s: Seq<char>, a: int, b: int) -> Number {
    Number { index: a as usize, length: (b - a) as usize, value: wrapping_value(s.subrange(a, b)) }
}

/// The numbers of `s` from `from` on: the longest runs of digits, from
/// left to right. A single digit in the very last position is no number.
pub open spec fn spec_numbers_from(s: Seq<char>, from: int) -> Seq<Number>
    decreases s.len() - from,
{
    if 0 <= from <= s.len() {
        let a = digit_run_end(s, from, false);
        if a < s.len() {
            let b = digit_run_end(s, a + 1, true);
            proof {
                lemma_digit_run_end(s, from, false);
                lemma_digit_run_end(s, a + 1, true);
            }
            if b == s.len() && b == a + 1 {
                seq![]
            } else {
                seq![number_at(s, a, b)] + spec_numbers_from(s, b)
            }
        } else {
            seq![]
        }
    } else {
        seq![]
    }
}

/// The numbers of `s`.
pub open spec fn spec_numbers(s: Seq<char>) -> Seq<Number> {
    spec_numbers_from(s, 0)
}

/// Finds the numbers of the schematic `input`.
pub fn extract_numbers(input: &[char]) -> (numbers: Vec<Number>)
    ensures
        numbers@ == spec_numbers(input@),
{
    let ghost s = input@;
    let mut numbers: Vec<Number> = Vec::new();
    // the number whose digits are being read, if the last character was a
    // digit; `numbers` holds the numbers that ended before it
    let mut previous: Option<Number> = None;
    let mut i: usize = 0;
    while i < input.len()
        invariant
            s == input@,
            i <= input.len(),
            match previous {
                Some(n) => {
                    &&& n.index < i
                    &&& n.index + n.length == i
                    &&& n.length == 1 || i < input.len()
                    &&& n.value == wrapping_value(s.subrange(n.index as int, i as int))
                    &&& forall|j: int| n.index <= j < i ==> is_digit(s[j])
                    &&& numbers@ + spec_numbers_from(s, n.index as int) == spec_numbers(s)
                },
                None => numbers@ + spec_numbers_from(s, i as int) == spec_numbers(s),
            },
        decreases input.len() - i,
    {
        let c = input[i];
        previous =
        match (to_digit(c), previous) {
            (Some(d), None) => {
                assert(s.subrange(i as int, i + 1).drop_last() =~= Seq::<char>::empty());
                assert(wrapping_value(Seq::<char>::empty()) == 0);
                assert(wrapping_value(s.subrange(i as int, i + 1)) == d as usize);
                Some(Number { index: i, length: 1, value: d as usize })
            },
            (Some(d), Some(n)) => {
                assert(s.subrange(n.index as int, i + 1).drop_last() =~= s.subrange(
                    n.index as int,
                    i as int,
                ));
                let longer = Number {
                    index: n.index,
                    length: n.length + 1,
                    value: n.value.wrapping_mul(10).wrapping_add(d as usize),
                };
                if i + 1 == input.len() {
                    // the text ends with this digit, and so does the number
                    proof {
                        lemma_digit_run_is(s, n.index as int, n.index as int, false);
                        lemma_digit_run_is(s, n.index + 1, i + 1, true);
                        assert(longer == number_at(s, n.index as int, i + 1));
                        assert(spec_numbers_from(s, i + 1) =~= Seq::<Number>::empty());
                        assert(numbers@.push(longer) =~= numbers@ + spec_numbers_from(
                            s,
                            n.index as int,
                        ));
                    }
                    numbers.push(longer);
                    None
                } else {
                    Some(longer)
                }
            },
            (None, Some(n)) => {
                proof {
                    lemma_digit_run_is(s, n.index as int, n.index as int, false);
                    lemma_digit_run_is(s, n.index + 1, i as int, true);
                    assert(n == number_at(s, n.index as int, i as int));
                    assert(digit_run_end(s, i as int, false) == digit_run_end(s, i + 1, false));
                    assert(spec_numbers_from(s, i as int) == spec_numbers_from(s, i + 1));
                    assert(numbers@.push(n) + spec_numbers_from(s, i + 1) =~= numbers@
                        + spec_numbers_from(s, n.index as int));
                }
                numbers.push(n);
                None
            },
            (None, None) => {
                assert(digit_run_end(s, i as int, false) == digit_run_end(s, i + 1, false));
                assert(spec_numbers_from(s, i as int) == spec_numbers_from(s, i + 1));
                None
            },
        };
        i += 1;
    }
    proof {
        match previous {
            Some(n) => {
                // a single digit in the last position, which is no number
                lemma_digit_run_is(s, n.index as int, n.index as int, false);
                lemma_digit_run_is(s, n.index + 1, i as int, true);
                assert(spec_numbers_from(s, n.index as int) =~= Seq::<Number>::empty());
            },
            None => {
                assert(spec_numbers_from(s, i as int) =~= Seq::<Number>::empty());
            },
        }
    }
    numbers
}

/// The characters that count as symbols of the schematic.
pub open spec fn spec_symbols() -> Seq<char> {
    seq!['+', '%', '*', '$', '#', '/', '=', '@', '-', '&']
}

/// Whether position `index` lies in `input` and holds one of `symbols`.
pub open spec fn is_symbol_at(input: Seq<char>, symbols: Seq<char>, index: usize) -> bool {
    index < input.len() && symbols.contains(input[index as int])
}

/// The positions from `start` up to `end` that hold one of `symbols`, in
/// rising order; none where `end` is not above `start`.
pub open spec fn symbols_between(
    input: Seq<char>,
    symbols: Seq<char>,
    start: usize,
    end: usize,
) -> Seq<usize>
    decreases end - start,
{
    if start >= end {
        seq![]
    } else {
        let rest = symbols_between(input, symbols, start, (end - 1) as usize);
        if is_symbol_at(input, symbols, (end - 1) as usize) {
            rest.push((end - 1) as usize)
        } else {
            rest
        }
    }
}

/// The stretch one row above `number`, from the position before its
/// first digit to the position after its last.
pub open spec fn row_above(number: Number, line_length: usize) -> (usize, usize) {
    (
        number.index.wrapping_sub(line_length).wrapping_sub(1),
        number.index.wrapping_add(number.length).wrapping_sub(line_length).wrapping_add(1),
    )
}

/// The stretch in the row of `number`, from the position before its first
/// digit to the position after its last.
pub open spec fn row_around(number: Number) -> (usize, usize) {
    (number.index.wrapping_sub(1), number.index.wrapping_add(number.length).wrapping_add(1))
}

/// The stretch one row below `number`, from the position before its
/// first digit to the position after its last.
pub open spec fn row_below(number: Number, line_length: usize) -> (usize, usize) {
    (
        number.index.wrapping_add(line_length).wrapping_sub(1),
        number.index.wrapping_add(number.length).wrapping_add(line_length).wrapping_add(1),
    )
}

/// The positions next to `number` that hold one of `symbols`: those of
/// the row above, then those of its own row, then those of the row below.
pub open spec fn spec_adjacent_symbols(
    input: Seq<char>,
    number: Number,
    line_length: usize,
    symbols: Seq<char>,
) -> Seq<usize> {
    let above = row_above(number, line_length);
    let around = row_around(number);
    let below = row_below(number, line_length);
    symbols_between(input, symbols, above.0, above.1) + symbols_between(
        input,
        symbols,
        around.0,
        around.1,
    ) + symbols_between(input, symbols, below.0, below.1)
}

/// Tests whether `c` is one of `symbols`.
fn is_symbol(symbols: &[char], c: char) -> (b: bool)
    ensures
        b == symbols@.contains(c),
{
    let mut k: usize = 0;
    while k < symbols.len()
        invariant
            k <= symbols.len(),
            forall|j: int| 0 <= j < k ==> symbols@[j] != c,
        decreases symbols.len() - k,
    {
        if symbols[k] == c {
            return true;
        }
        k += 1;
    }
    false
}

/// Appends to `found` the positions from `start` up to `end` that hold
/// one of `symbols`.
fn push_symbols_between(
    input: &Vec<char>,
    symbols: &[char],
    start: usize,
    end: usize,
    found: &mut Vec<usize>,
)
    ensures
        final(found)@ == old(found)@ + symbols_between(input@, symbols@, start, end),
{
    let ghost before = found@;
    let mut index: usize = start;
    assert(found@ =~= before + symbols_between(input@, symbols@, start, start));
    while index < end
        invariant
            start <= index,
            index <= end || index == start,
            found@ == before + symbols_between(input@, symbols@, start, index),
        decreases end - index,
    {
        if index < input.len() && is_symbol(symbols, input[index]) {
            found.push(index);
        }
        index += 1;
        assert(found@ =~= before + symbols_between(input@, symbols@, start, index));
    }
    if start >= end {
        assert(symbols_between(input@, symbols@, start, end) =~= symbols_between(
            input@,
            symbols@,
            start,
            start,
        ));
    }
}

/// Finds the positions next to `number` that hold one of `symbols`.
pub fn extract_adjacent_symbol_indexes(
    input: &Vec<char>,
    number: Number,
    line_length: usize,
    symbols: &[char],
) -> (indexes: Vec<usize>)
    ensures
        indexes@ == spec_adjacent_symbols(input@, number, line_length, symbols@),
{
    let after = number.index.wrapping_add(number.length);
    let mut indexes: Vec<usize> = Vec::new();
    push_symbols_between(
        input,
        symbols,
        number.index.wrapping_sub(line_length).wrapping_sub(1),
        after.wrapping_sub(line_length).wrapping_add(1),
        &mut indexes,
    );
    push_symbols_between(
        input,
        symbols,
        number.index.wrapping_sub(1),
        after.wrapping_add(1),
        &mut indexes,
    );
    push_symbols_between(
        input,
        symbols,
        number.index.wrapping_add(line_length).wrapping_sub(1),
        after.wrapping_add(line_length).wrapping_add(1),
        &mut indexes,
    );
    indexes
}

/// The first position at or after `from` that holds a line feed.
pub open spec fn first_feed(bytes: Seq<u8>, from: int) -> Option<int>
    decreases bytes.len() - from,
{
    if from < 0 || from >= bytes.len() {
        None
    } else if bytes[from] == 10 {
        Some(from)
    } else {
        first_feed(bytes, from + 1)
    }
}

/// The length of the first line of `input` with its line feed, counted
/// in bytes of UTF-8; `None` if `input` holds no line feed.
pub open spec fn spec_line_length(input: Seq<char>) -> Option<usize> {
    match first_feed(encode_utf8(input), 0) {
        Some(i) => Some((i + 1) as usize),
        None => None,
    }
}

/// Measures the first line of `input`, its line feed included.
pub fn line_length(input: &str) -> (r: Option<usize>)
    ensures
        r == spec_line_length(input@),
{
    let bytes = input.as_bytes();
    let mut i: usize = 0;
    while i < bytes.len()
        invariant
            i <= bytes.len(),
            bytes@ == encode_utf8(input@),
            first_feed(bytes@, i as int) == first_feed(bytes@, 0),
        decreases bytes.len() - i,
    {
        if bytes[i] == 10 {
            return Some(i + 1);
        }
        i += 1;
    }
    None
}

/// The symbols of the schematic.
fn symbols() -> (v: Vec<char>)
    ensures
        v@ == spec_symbols(),
{
    let v: Vec<char> = vec!['+', '%', '*', '$', '#', '/', '=', '@', '-', '&'];
    assert(v@ =~= spec_symbols());
    v
}

/// Whether `number` is a part number: whether a symbol stands next to it.
pub open spec fn is_part(input: Seq<char>, number: Number, line_length: usize) -> bool {
    spec_adjacent_symbols(input, number, line_length, spec_symbols()).len() > 0
}

/// For each number of `input` its value if it is a part number, else 0.
pub open spec fn part_terms(input: Seq<char>, line_length: usize) -> Seq<nat> {
    let numbers = spec_numbers(input);
    Seq::new(
        numbers.len(),
        |k: int|
            if is_part(input, numbers[k], line_length) {
                numbers[k].value as nat
            } else {
                0
            },
    )
}

/// The sum of the part numbers of `input`; `None` if `input` holds no
/// line feed.
pub open spec fn spec_part_1(input: Seq<char>) -> Option<nat> {
    match spec_line_length(input) {
        Some(line_length) => Some(sum(part_terms(input, line_length))),
        None => None,
    }
}

/// Sums the part numbers of `input` and writes the sum in base ten, if
/// `input` has a line feed and the sum fits in a `usize`.
pub fn try_part_1(input: &str) -> (r: Option<String>)
    ensures
        r is Some <==> fits(spec_part_1(input@)),
        r matches Some(answer) ==> answer@ == decimal(spec_part_1(input@)->0),
{
    let line_length = match line_length(input) {
        Some(l) => l,
        None => {
            return None;
        },
    };
    let symbols = symbols();
    let chars = chars_of(input);
    let numbers = extract_numbers(chars.as_slice());
    let ghost terms = part_terms(input@, line_length);
    let mut total: usize = 0;
    let mut k: usize = 0;
    while k < numbers.len()
        invariant
            k <= numbers.len(),
            chars@ == input@,
            numbers@ == spec_numbers(input@),
            symbols@ == spec_symbols(),
            terms == part_terms(input@, line_length),
            spec_part_1(input@) == Some(sum(terms)),
            total == sum(terms.take(k as int)),
        decreases numbers.len() - k,
    {
        let number = numbers[k];
        let found = extract_adjacent_symbol_indexes(&chars, number, line_length, symbols.as_slice());
        proof {
            lemma_sum_take(terms, k as int);
            lemma_sum_prefix(terms, k + 1);
        }
        if found.len() > 0 {
            total =
            match total.checked_add(number.value) {
                Some(t) => t,
                None => {
                    return None;
                },
            };
        }
        k += 1;
    }
    proof {
        lemma_sum_all(terms);
    }
    Some(to_decimal(total))
}

/// Sums the part numbers of `input` and writes the sum in base ten.
pub fn part_1(input: &str) -> (answer: String)
    requires
        fits(spec_part_1(input@)),
    ensures
        answer@ == decimal(spec_part_1(input@)->0),
{
    try_part_1(input).unwrap()
}

/// Each of `indexes` paired with `number`.
pub open spec fn tagged(indexes: Seq<usize>, number: Number) -> Seq<(usize, Number)> {
    Seq::new(indexes.len(), |j: int| (indexes[j], number))
}

/// The stars next to each of `numbers`, each star with that number:
/// number by number, and for one number in the order of
/// `spec_adjacent_symbols`.
pub open spec fn star_pairs(input: Seq<char>, numbers: Seq<Number>, line_length: usize) -> Seq<
    (usize, Number),
>
    decreases numbers.len(),
{
    if numbers.len() == 0 {
        seq![]
    } else {
        star_pairs(input, numbers.drop_last(), line_length) + tagged(
            spec_adjacent_symbols(input, numbers.last(), line_length, seq!['*']),
            numbers.last(),
        )
    }
}

/// The numbers that `pairs` holds for the position `key`, in their order.
pub open spec fn group(pairs: Seq<(usize, Number)>, key: usize) -> Seq<Number>
    decreases pairs.len(),
{
    if pairs.len() == 0 {
        seq![]
    } else {
        let rest = group(pairs.drop_last(), key);
        if pairs.last().0 == key {
            rest.push(pairs.last().1)
        } else {
            rest
        }
    }
}

/// Whether `pairs` holds a number for the position `key`.
pub open spec fn has_key(pairs: Seq<(usize, Number)>, key: usize) -> bool {
    exists|i: int| 0 <= i < pairs.len() && (#[trigger] pairs[i]).0 == key
}

/// A position for which `pairs` holds no number has an empty group.
pub proof fn lemma_group_empty(pairs: Seq<(usize, Number)>, key: usize)
    requires
        !has_key(pairs, key),
    ensures
        group(pairs, key).len() == 0,
    decreases pairs.len(),
{
    if pairs.len() > 0 {
        assert(pairs[pairs.len() - 1].0 != key);
        assert forall|i: int| 0 <= i < pairs.drop_last().len() implies (
        #[trigger] pairs.drop_last()[i]).0 != key by {
            assert(pairs[i].0 != key);
        }
        lemma_group_empty(pairs.drop_last(), key);
    }
}

/// The gear ratio of a star with the numbers `numbers` next to it: their
/// product if they are two, else 0.
pub open spec fn gear_ratio(numbers: Seq<Number>) -> nat {
    if numbers.len() == 2 {
        numbers[0].value as nat * numbers[1].value as nat
    } else {
        0
    }
}

/// For each position of `input` the gear ratio of the star there; 0 where
/// no star stands.
pub open spec fn gear_terms(input: Seq<char>, line_length: usize) -> Seq<nat> {
    let pairs = star_pairs(input, spec_numbers(input), line_length);
    Seq::new(input.len(), |k: int| gear_ratio(group(pairs, k as usize)))
}

/// The sum of the gear ratios of `input`; `None` if `input` holds no line
/// feed.
pub open spec fn spec_part_2(input: Seq<char>) -> Option<nat> {
    match spec_line_length(input) {
        Some(line_length) => Some(sum(gear_terms(input, line_length))),
        None => None,
    }
}

/// Groups the numbers of `pairs` by their positions with
/// `Itertools::into_group_map`: the map has the positions that occur in
/// `pairs` as keys, and holds for each the numbers paired with it, in the
/// order in which they stand in `pairs`.
#[verifier::external_body]
fn group_by_position(pairs: Vec<(usize, Number)>) -> (groups: HashMap<usize, Vec<Number>>)
    ensures
        forall|key: usize| groups@.contains_key(key) <==> has_key(pairs@, key),
        forall|key: usize| groups@.contains_key(key) ==> groups@[key]@ == group(pairs@, key),
{
    pairs.into_iter().into_group_map()
}

/// Pairs each star of `input` with the numbers next to it.
fn collect_star_pairs(chars: &Vec<char>, numbers: &Vec<Number>, line_length: usize) -> (pairs: Vec<
    (usize, Number),
>)
    ensures
        pairs@ == star_pairs(chars@, numbers@, line_length),
{
    let star: Vec<char> = vec!['*'];
    assert(star@ =~= seq!['*']);
    let mut pairs: Vec<(usize, Number)> = Vec::new();
    let mut k: usize = 0;
    while k < numbers.len()
        invariant
            k <= numbers.len(),
            star@ == seq!['*'],
            pairs@ == star_pairs(chars@, numbers@.take(k as int), line_length),
        decreases numbers.len() - k,
    {
        let number = numbers[k];
        let found = extract_adjacent_symbol_indexes(chars, number, line_length, star.as_slice());
        let ghost before = pairs@;
        let mut j: usize = 0;
        while j < found.len()
            invariant
                j <= found.len(),
                pairs@ == before + tagged(found@.take(j as int), number),
            decreases found.len() - j,
        {
            pairs.push((found[j], number));
            j += 1;
            assert(pairs@ =~= before + tagged(found@.take(j as int), number));
        }
        assert(found@.take(j as int) == found@);
        assert(numbers@.take(k + 1).drop_last() == numbers@.take(k as int));
        k += 1;
    }
    assert(numbers@.take(k as int) == numbers@);
    pairs
}

/// Sums the gear ratios of `input` and writes the sum in base ten, if
/// `input` has a line feed and the sum fits in a `usize`.
pub fn try_part_2(input: &str) -> (r: Option<String>)
    ensures
        r is Some <==> fits(spec_part_2(input@)),
        r matches Some(answer) ==> answer@ == decimal(spec_part_2(input@)->0),
{
    broadcast use group_hash_axioms;

    let line_length = match line_length(input) {
        Some(l) => l,
        None => {
            return None;
        },
    };
    let chars = chars_of(input);
    let numbers = extract_numbers(chars.as_slice());
    let pairs = collect_star_pairs(&chars, &numbers, line_length);
    let ghost all = pairs@;
    let groups = group_by_position(pairs);
    let ghost terms = gear_terms(input@, line_length);
    // a star is a position of the text, so the groups are looked up position
    // by position: the sum does not depend on the order of a hash map
    let mut total: usize = 0;
    let mut k: usize = 0;
    while k < chars.len()
        invariant
            k <= chars.len(),
            chars@ == input@,
            all == star_pairs(input@, spec_numbers(input@), line_length),
            forall|key: usize| groups@.contains_key(key) <==> has_key(all, key),
            forall|key: usize| groups@.contains_key(key) ==> groups@[key]@ == group(all, key),
            terms == gear_terms(input@, line_length),
            spec_part_2(input@) == Some(sum(terms)),
            total == sum(terms.take(k as int)),
        decreases chars.len() - k,
    {
        proof {
            lemma_sum_take(terms, k as int);
            lemma_sum_prefix(terms, k + 1);
            if !has_key(all, k) {
                lemma_group_empty(all, k);
            }
        }
        match groups.get(&k) {
            Some(found) => {
                if found.len() == 2 {
                    let ratio = match found[0].value.checked_mul(found[1].value) {
                        Some(r) => r,
                        None => {
                            return None;
                        },
                    };
                    total =
                    match total.checked_add(ratio) {
                        Some(t) => t,
                        None => {
                            return None;
                        },
                    };
                }
            },
            None => {},
        }
        k += 1;
    }
    proof {
        lemma_sum_all(terms);
    }
    Some(to_decimal(total))
}

/// Sums the gear ratios of `input` and writes the sum in base ten.
pub fn part_2(input: &str) -> (answer: String)
    requires
        fits(spec_part_2(input@)),
    ensures
        answer@ == decimal(spec_part_2(input@)->0),
{
    try_part_2(input).unwrap()
}

/// Whether `number` is a longest run of digits of `s` with its value.
pub open spec fn is_digit_run(s: Seq<char>, number: Number) -> bool {
    let start = number.index as int;
    let end = number.index + number.length;
    &&& start < end <= s.len()
    &&& forall|j: int| start <= j < end ==> is_digit(#[trigger] s[j])
    &&& start > 0 ==> !is_digit(s[start - 1])
    &&& end < s.len() ==> !is_digit(s[end])
    &&& number.value == wrapping_value(s.subrange(start, end))
}

/// Each of the numbers of `s` from `from` on is a longest run of digits
/// that starts at `from` or later, and each starts after the one before
/// it has ended.
pub proof fn lemma_numbers_from_are_runs(s: Seq<char>, from: int)
    requires
        s.len() <= usize::MAX,
        0 <= from <= s.len(),
        from == 0 || from == s.len() || !is_digit(s[from]),
    ensures
        forall|k: int|
            0 <= k < spec_numbers_from(s, from).len() ==> {
                let number = #[trigger] spec_numbers_from(s, from)[k];
                is_digit_run(s, number) && from <= number.index
            },
        forall|k: int|
            0 < k < spec_numbers_from(s, from).len() ==> {
                let before = spec_numbers_from(s, from)[k - 1];
                before.index + before.length < (#[trigger] spec_numbers_from(s, from)[k]).index
            },
    decreases s.len() - from,
{
    let a = digit_run_end(s, from, false);
    lemma_digit_run_end(s, from, false);
    if a < s.len() {
        let b = digit_run_end(s, a + 1, true);
        lemma_digit_run_end(s, a + 1, true);
        if !(b == s.len() && b == a + 1) {
            let first = number_at(s, a, b);
            let rest = spec_numbers_from(s, b);
            let all = spec_numbers_from(s, from);
            lemma_numbers_from_are_runs(s, b);
            assert(all == seq![first] + rest);
            assert(is_digit_run(s, first)) by {
                if a > 0 && a > from {
                    assert(!is_digit(s[a - 1]));
                }
            }
            assert forall|k: int| 0 <= k < all.len() implies {
                let number = #[trigger] all[k];
                is_digit_run(s, number) && from <= number.index
            } by {
                if k > 0 {
                    assert(all[k] == rest[k - 1]);
                }
            }
            assert forall|k: int| 0 < k < all.len() implies {
                let before = all[k - 1];
                before.index + before.length < (#[trigger] all[k]).index
            } by {
                assert(all[k] == rest[k - 1]);
                if k > 1 {
                    assert(all[k - 1] == rest[k - 2]);
                } else {
                    assert(b < s.len() ==> !is_digit(s[b]));
                    assert(is_digit_run(s, rest[0]));
                }
            }
        }
    }
}

/// Each of the numbers of a text `s` that a `usize` can index is a
/// longest run of digits, and each starts after the one before it has
/// ended.
pub proof fn lemma_numbers_are_runs(s: Seq<char>)
    requires
        s.len() <= usize::MAX,
    ensures
        forall|k: int|
            0 <= k < spec_numbers(s).len() ==> is_digit_run(s, #[trigger] spec_numbers(s)[k]),
        forall|k: int|
            0 < k < spec_numbers(s).len() ==> {
                let before = spec_numbers(s)[k - 1];
                before.index + before.length < (#[trigger] spec_numbers(s)[k]).index
            },
{
    lemma_numbers_from_are_runs(s, 0);
}

} // verus!
