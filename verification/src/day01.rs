//! Calibration values: each line yields numbers, and the first and the
//! last number of a line make its calibration value.
use crate::seqs::{all_some, lemma_sum_all, lemma_sum_prefix, lemma_sum_take, sum};
use crate::text::{
    chars_of, decimal, digit_value, is_digit, lines, occurs, occurs_at, spec_lines, strs,
    to_decimal, to_digit,
};
use vstd::prelude::*;
use vstd::utf8::is_ascii_chars;

verus! {

/// The values of the ASCII digits of `line`, from left to right.
pub open spec fn spec_digits(line: Seq<char>) -> Seq<u32>
    decreases line.len(),
{
    if line.len() == 0 {
        seq![]
    } else {
        let before = spec_digits(line.drop_last());
        if is_digit(line.last()) {
            before.push(digit_value(line.last()) as u32)
        } else {
            before
        }
    }
}

/// Finds the digits of `line`.
pub fn extract_numbers_1(line: &str) -> (numbers: Vec<u32>)
    ensures
        numbers@ == spec_digits(line@),
{
    let chars = chars_of(line);
    let mut numbers: Vec<u32> = Vec::new();
    let mut k: usize = 0;
    while k < chars.len()
        invariant
            k <= chars.len(),
            numbers@ == spec_digits(chars@.take(k as int)),
        decreases chars.len() - k,
    {
        assert(chars@.take(k + 1).drop_last() == chars@.take(k as int));
        match to_digit(chars[k]) {
            Some(d) => {
                numbers.push(d);
            },
            None => {},
        }
        k += 1;
    }
    assert(chars@.take(k as int) == chars@);
    numbers
}

/// The English word for the digit `d`, from 1 to 9.
pub open spec fn spelled(d: int) -> Seq<char> {
    if d == 1 {
        "one"@
    } else if d == 2 {
        "two"@
    } else if d == 3 {
        "three"@
    } else if d == 4 {
        "four"@
    } else if d == 5 {
        "five"@
    } else if d == 6 {
        "six"@
    } else if d == 7 {
        "seven"@
    } else if d == 8 {
        "eight"@
    } else {
        "nine"@
    }
}

/// The digits among the first `upto` whose words stand in `line` at
/// `offset`, in rising order.
pub open spec fn words_at(line: Seq<char>, offset: int, upto: nat) -> Seq<u32>
    decreases upto,
{
    if upto == 0 {
        seq![]
    } else {
        let before = words_at(line, offset, (upto - 1) as nat);
        if occurs_at(line, spelled(upto as int), offset) {
            before.push(upto as u32)
        } else {
            before
        }
    }
}

/// What `line` holds at `offset`: the value of the digit there, or else
/// the digits whose words start there.
pub open spec fn tokens_at(line: Seq<char>, offset: int) -> Seq<u32> {
    if is_digit(line[offset]) {
        seq![digit_value(line[offset]) as u32]
    } else {
        words_at(line, offset, 9)
    }
}

/// What `line` holds at the offsets before `upto`, from left to right.
pub open spec fn tokens_before(line: Seq<char>, upto: nat) -> Seq<u32>
    decreases upto,
{
    if upto == 0 {
        seq![]
    } else {
        tokens_before(line, (upto - 1) as nat) + tokens_at(line, upto - 1)
    }
}

/// The digits of `line` and the digits that it spells out, from left to
/// right. Words may overlap: each counts.
pub open spec fn spec_digits_and_words(line: Seq<char>) -> Seq<u32> {
    tokens_before(line, line.len())
}

/// The word for the digit `d`.
fn word(d: u32) -> (w: &'static str)
    requires
        1 <= d <= 9,
    ensures
        w@ == spelled(d as int),
{
    if d == 1 {
        "one"
    } else if d == 2 {
        "two"
    } else if d == 3 {
        "three"
    } else if d == 4 {
        "four"
    } else if d == 5 {
        "five"
    } else if d == 6 {
        "six"
    } else if d == 7 {
        "seven"
    } else if d == 8 {
        "eight"
    } else {
        "nine"
    }
}

/// Finds the digits of `line` and the digits that it spells out, if
/// `line` is ASCII.
pub fn try_extract_numbers_2(line: &str) -> (r: Option<Vec<u32>>)
    ensures
        r is Some <==> is_ascii_chars(line@),
        r matches Some(numbers) ==> numbers@ == spec_digits_and_words(line@),
{
    if !line.is_ascii() {
        return None;
    }
    let chars = chars_of(line);
    let mut numbers: Vec<u32> = Vec::new();
    let mut offset: usize = 0;
    while offset < chars.len()
        invariant
            offset <= chars.len(),
            chars@ == line@,
            numbers@ == tokens_before(line@, offset as nat),
        decreases chars.len() - offset,
    {
        let ghost before = numbers@;
        match to_digit(chars[offset]) {
            Some(number) => {
                numbers.push(number);
                assert(numbers@ =~= before + tokens_at(line@, offset as int));
            },
            None => {
                let mut d: u32 = 1;
                while d <= 9
                    invariant
                        1 <= d <= 10,
                        offset < chars.len(),
                        chars@ == line@,
                        numbers@ == before + words_at(line@, offset as int, (d - 1) as nat),
                    decreases 10 - d,
                {
                    let possible = chars_of(word(d));
                    if occurs(&chars, &possible, offset) {
                        numbers.push(d);
                    }
                    assert(numbers@ =~= before + words_at(line@, offset as int, d as nat));
                    d += 1;
                }
            },
        }
        offset += 1;
    }
    Some(numbers)
}

/// Finds the digits of `line` and the digits that it spells out.
pub fn extract_numbers_2(line: &str) -> (numbers: Vec<u32>)
    requires
        is_ascii_chars(line@),
    ensures
        numbers@ == spec_digits_and_words(line@),
{
    try_extract_numbers_2(line).unwrap()
}

/// The calibration value of a line with the numbers `numbers`: ten times
/// the first and the last. `None` if there is no number, or the value
/// does not fit in a `u32`.
pub open spec fn spec_calibration(numbers: Seq<u32>) -> Option<nat> {
    if numbers.len() > 0 && numbers.first() * 10 + numbers.last() <= u32::MAX {
        Some((numbers.first() * 10 + numbers.last()) as nat)
    } else {
        None
    }
}

/// The sum of the calibration values of lines with the numbers `rows`;
/// `None` if a line has no calibration value.
pub open spec fn spec_total(rows: Seq<Seq<u32>>) -> Option<nat> {
    match all_some(Seq::new(rows.len(), |k: int| spec_calibration(rows[k]))) {
        Some(values) => Some(sum(values)),
        None => None,
    }
}

/// Whether `total` is there and fits in a `u32`.
pub open spec fn fits_u32(total: Option<nat>) -> bool {
    total matches Some(t) && t <= u32::MAX
}

/// The numbers of each row.
pub open spec fn rows_view(rows: Seq<Vec<u32>>) -> Seq<Seq<u32>> {
    Seq::new(rows.len(), |k: int| rows[k]@)
}

/// Sums the calibration values of lines with the numbers `rows`, if each
/// has one and neither a value nor the sum overflows.
pub fn try_calibrate(rows: &Vec<Vec<u32>>) -> (r: Option<u32>)
    ensures
        r is Some <==> fits_u32(spec_total(rows_view(rows@))),
        r matches Some(total) ==> total == spec_total(rows_view(rows@))->0,
{
    let ghost all = rows_view(rows@);
    let ghost values = Seq::new(all.len(), |k: int| spec_calibration(all[k]));
    let ghost terms = Seq::new(all.len(), |k: int| spec_calibration(all[k])->0);
    let mut total: u32 = 0;
    let mut k: usize = 0;
    while k < rows.len()
        invariant
            k <= rows.len(),
            all == rows_view(rows@),
            values == Seq::new(all.len(), |k: int| spec_calibration(all[k])),
            terms == Seq::new(all.len(), |k: int| spec_calibration(all[k])->0),
            forall|i: int| 0 <= i < k ==> (#[trigger] values[i]) is Some,
            total == sum(terms.take(k as int)),
        decreases rows.len() - k,
    {
        proof {
            lemma_sum_take(terms, k as int);
            lemma_sum_prefix(terms, k + 1);
        }
        let numbers = &rows[k];
        assert(all[k as int] == numbers@);
        if numbers.len() == 0 {
            assert(values[k as int] is None);
            return None;
        }
        let first = numbers[0];
        let last = numbers[numbers.len() - 1];
        let value = match first.checked_mul(10) {
            Some(tens) => match tens.checked_add(last) {
                Some(value) => value,
                None => {
                    assert(values[k as int] is None);
                    return None;
                },
            },
            None => {
                assert(values[k as int] is None);
                return None;
            },
        };
        total =
        match total.checked_add(value) {
            Some(t) => t,
            None => {
                proof {
                    if all_some(values) is Some {
                        assert(all_some(values)->0 =~= terms);
                    }
                }
                return None;
            },
        };
        k += 1;
    }
    proof {
        lemma_sum_all(terms);
        assert(all_some(values)->0 =~= terms);
    }
    Some(total)
}

/// Whether `numbers` is what `extractor` may return for a line with the
/// text `line`.
pub open spec fn extracted<F: Fn(&str) -> Vec<u32>>(
    extractor: F,
    line: Seq<char>,
    numbers: Vec<u32>,
) -> bool {
    exists|text: &str| text@ == line && #[trigger] call_ensures(extractor, (text,), numbers)
}

/// Whether `rows` is what `extractor` may return for the lines of
/// `input`, line by line.
pub open spec fn extracted_by<F: Fn(&str) -> Vec<u32>>(
    extractor: F,
    input: Seq<char>,
    rows: Vec<Vec<u32>>,
) -> bool {
    &&& rows@.len() == spec_lines(input).len()
    &&& forall|k: int|
        0 <= k < rows@.len() ==> #[trigger] extracted(extractor, spec_lines(input)[k], rows@[k])
}

/// Sums the calibration values of the lines of `input`, where `extractor`
/// finds the numbers of a line, and writes the sum in base ten.
pub fn solve_with_extractor<F: Fn(&str) -> Vec<u32>>(input: &str, extractor: F) -> (answer: String)
    requires
        forall|line: &str| spec_lines(input@).contains(line@) ==> call_requires(extractor, (line,)),
        forall|rows: Vec<Vec<u32>>| #[trigger]
            extracted_by(extractor, input@, rows) ==> fits_u32(spec_total(rows_view(rows@))),
    ensures
        exists|rows: Vec<Vec<u32>>|
            {
                &&& #[trigger] extracted_by(extractor, input@, rows)
                &&& fits_u32(spec_total(rows_view(rows@)))
                &&& answer@ == decimal(spec_total(rows_view(rows@))->0)
            },
{
    let records = lines(input);
    let ghost all = spec_lines(input@);
    assert(records@.len() == strs(records@).len());
    // the numbers of every line are extracted before the first calibration
    // value is made: what is demanded of them is demanded of all together
    let mut rows: Vec<Vec<u32>> = Vec::new();
    let mut k: usize = 0;
    while k < records.len()
        invariant
            k <= records.len(),
            records@.len() == all.len(),
            strs(records@) == all,
            all == spec_lines(input@),
            forall|line: &str| all.contains(line@) ==> call_requires(extractor, (line,)),
            rows@.len() == k,
            forall|i: int|
                0 <= i < k ==> call_ensures(extractor, (records@[i],), #[trigger] rows@[i]),
        decreases records.len() - k,
    {
        assert(all[k as int] == records@[k as int]@) by {
            assert(strs(records@)[k as int] == records@[k as int]@);
        }
        rows.push(extractor(records[k]));
        k += 1;
    }
    assert(extracted_by(extractor, input@, rows)) by {
        assert forall|k: int| 0 <= k < rows@.len() implies #[trigger] extracted(
            extractor,
            spec_lines(input@)[k],
            rows@[k],
        ) by {
            assert(strs(records@)[k] == records@[k]@);
            assert(call_ensures(extractor, (records@[k],), rows@[k]));
        }
    }
    let total = try_calibrate(&rows).unwrap();
    to_decimal(total as usize)
}

/// The sum of the calibration values of the lines of `input`, made of
/// the digits of each line; `None` if a line has no digit.
pub open spec fn spec_part_1(input: Seq<char>) -> Option<nat> {
    let records = spec_lines(input);
    spec_total(Seq::new(records.len(), |k: int| spec_digits(records[k])))
}

/// The sum of the calibration values of the lines of `input`, made of
/// the digits of each line and the digits that it spells out; `None` if a
/// line has neither, or is not ASCII.
pub open spec fn spec_part_2(input: Seq<char>) -> Option<nat> {
    let records = spec_lines(input);
    if forall|k: int| 0 <= k < records.len() ==> is_ascii_chars(#[trigger] records[k]) {
        spec_total(Seq::new(records.len(), |k: int| spec_digits_and_words(records[k])))
    } else {
        None
    }
}

/// Sums the calibration values of the lines of `input`, made of the
/// digits of each line, and writes the sum in base ten.
pub fn part_1(input: &str) -> (answer: String)
    requires
        fits_u32(spec_part_1(input@)),
    ensures
        answer@ == decimal(spec_part_1(input@)->0),
{
    let ghost records = spec_lines(input@);
    let ghost expected = Seq::new(records.len(), |k: int| spec_digits(records[k]));
    // whatever the extractor returns for the lines, it is their digits
    assert forall|rows: Vec<Vec<u32>>| #[trigger]
        extracted_by(extract_numbers_1, input@, rows) implies rows_view(rows@) == expected by {
        assert forall|k: int| 0 <= k < rows@.len() implies rows@[k]@ == expected[k] by {
            assert(extracted(extract_numbers_1, records[k], rows@[k]));
        }
        assert(rows_view(rows@) =~= expected);
    }
    solve_with_extractor(input, extract_numbers_1)
}

/// Sums the calibration values of the lines of `input`, made of the
/// digits of each line and the digits that it spells out, and writes the
/// sum in base ten.
pub fn part_2(input: &str) -> (answer: String)
    requires
        fits_u32(spec_part_2(input@)),
    ensures
        answer@ == decimal(spec_part_2(input@)->0),
{
    let ghost records = spec_lines(input@);
    let ghost expected = Seq::new(records.len(), |k: int| spec_digits_and_words(records[k]));
    // whatever the extractor returns for the lines, it is their digits and
    // words
    assert forall|rows: Vec<Vec<u32>>| #[trigger]
        extracted_by(extract_numbers_2, input@, rows) implies rows_view(rows@) == expected by {
        assert forall|k: int| 0 <= k < rows@.len() implies rows@[k]@ == expected[k] by {
            assert(extracted(extract_numbers_2, records[k], rows@[k]));
        }
        assert(rows_view(rows@) =~= expected);
    }
    assert forall|line: &str| records.contains(line@) implies call_requires(
        extract_numbers_2,
        (line,),
    ) by {
        let k = choose|k: int| 0 <= k < records.len() && records[k] == line@;
        assert(is_ascii_chars(records[k]));
    }
    solve_with_extractor(input, extract_numbers_2)
}

/// Sums the calibration values of the lines of `input`, made of the
/// digits of each line, and writes the sum in base ten, if each line has
/// a digit and the sum fits in a `u32`.
pub fn try_part_1(input: &str) -> (r: Option<String>)
    ensures
        r is Some <==> fits_u32(spec_part_1(input@)),
        r matches Some(answer) ==> answer@ == decimal(spec_part_1(input@)->0),
{
    let records = lines(input);
    let ghost all = spec_lines(input@);
    let ghost expected = Seq::new(all.len(), |k: int| spec_digits(all[k]));
    assert(records@.len() == strs(records@).len());
    let mut rows: Vec<Vec<u32>> = Vec::new();
    let mut k: usize = 0;
    while k < records.len()
        invariant
            k <= records.len(),
            records@.len() == all.len(),
            strs(records@) == all,
            rows@.len() == k,
            forall|i: int| 0 <= i < k ==> (#[trigger] rows@[i])@ == spec_digits(all[i]),
        decreases records.len() - k,
    {
        assert(all[k as int] == records@[k as int]@) by {
            assert(strs(records@)[k as int] == records@[k as int]@);
        }
        rows.push(extract_numbers_1(records[k]));
        k += 1;
    }
    assert(rows_view(rows@) =~= expected);
    match try_calibrate(&rows) {
        Some(total) => Some(to_decimal(total as usize)),
        None => None,
    }
}

/// Sums the calibration values of the lines of `input`, made of the
/// digits of each line and the digits that it spells out, and writes the
/// sum in base ten, if each line is ASCII and has a digit or spells one
/// out, and the sum fits in a `u32`.
pub fn try_part_2(input: &str) -> (r: Option<String>)
    ensures
        r is Some <==> fits_u32(spec_part_2(input@)),
        r matches Some(answer) ==> answer@ == decimal(spec_part_2(input@)->0),
{
    let records = lines(input);
    let ghost all = spec_lines(input@);
    let ghost expected = Seq::new(all.len(), |k: int| spec_digits_and_words(all[k]));
    assert(records@.len() == strs(records@).len());
    let mut rows: Vec<Vec<u32>> = Vec::new();
    let mut k: usize = 0;
    while k < records.len()
        invariant
            k <= records.len(),
            records@.len() == all.len(),
            strs(records@) == all,
            all == spec_lines(input@),
            rows@.len() == k,
            forall|i: int| 0 <= i < k ==> is_ascii_chars(#[trigger] all[i]),
            forall|i: int| 0 <= i < k ==> (#[trigger] rows@[i])@ == spec_digits_and_words(all[i]),
        decreases records.len() - k,
    {
        assert(all[k as int] == records@[k as int]@) by {
            assert(strs(records@)[k as int] == records@[k as int]@);
        }
        match try_extract_numbers_2(records[k]) {
            Some(numbers) => {
                rows.push(numbers);
            },
            None => {
                assert(!is_ascii_chars(all[k as int]));
                return None;
            },
        }
        k += 1;
    }
    assert(rows_view(rows@) =~= expected);
    match try_calibrate(&rows) {
        Some(total) => Some(to_decimal(total as usize)),
        None => None,
    }
}

/// Where a word stands in a line, the line holds its first two letters.
proof fn lemma_word_letters(line: Seq<char>, word: Seq<char>, offset: int)
    requires
        occurs_at(line, word, offset),
        word.len() >= 2,
    ensures
        line[offset] == word[0],
        line[offset + 1] == word[1],
{
    let part = line.subrange(offset, offset + word.len());
    assert(part[0] == line[offset]);
    assert(part[1] == line[offset + 1]);
}

/// No two of the nine words stand at one offset, so an offset yields one
/// number at most.
pub proof fn lemma_one_word_at_most(line: Seq<char>, offset: int)
    ensures
        words_at(line, offset, 9).len() <= 1,
        0 <= offset < line.len() ==> tokens_at(line, offset).len() <= 1,
{
    reveal_with_fuel(words_at, 10);
    reveal_strlit("one");
    reveal_strlit("two");
    reveal_strlit("three");
    reveal_strlit("four");
    reveal_strlit("five");
    reveal_strlit("six");
    reveal_strlit("seven");
    reveal_strlit("eight");
    reveal_strlit("nine");
    assert forall|d: int| 1 <= d <= 9 && occurs_at(line, spelled(d), offset) implies line[offset]
        == spelled(d)[0] && line[offset + 1] == spelled(d)[1] by {
        lemma_word_letters(line, spelled(d), offset);
    }
    assert(spelled(1)[0] == 'o' && spelled(1)[1] == 'n');
    assert(spelled(2)[0] == 't' && spelled(2)[1] == 'w');
    assert(spelled(3)[0] == 't' && spelled(3)[1] == 'h');
    assert(spelled(4)[0] == 'f' && spelled(4)[1] == 'o');
    assert(spelled(5)[0] == 'f' && spelled(5)[1] == 'i');
    assert(spelled(6)[0] == 's' && spelled(6)[1] == 'i');
    assert(spelled(7)[0] == 's' && spelled(7)[1] == 'e');
    assert(spelled(8)[0] == 'e' && spelled(8)[1] == 'i');
    assert(spelled(9)[0] == 'n' && spelled(9)[1] == 'i');
}

} // verus!
