//! String handling shared by the puzzles: characters, decimal numbers,
//! splitting and trimming, each specified over `Seq<char>`.
use crate::seqs::all_some;
use vstd::prelude::*;
use vstd::string::*;

verus! {

/// Whether `c` is one of the ten ASCII digits.
pub open spec fn is_digit(c: char) -> bool {
    '0' <= c <= '9'
}

/// The number that the ASCII digit `c` stands for.
pub open spec fn digit_value(c: char) -> nat
    recommends
        is_digit(c),
{
    (c as nat - '0' as nat) as nat
}

/// The ASCII digit that stands for `d`.
pub open spec fn digit_char(d: nat) -> char
    recommends
        d < 10,
{
    (d + '0' as nat) as char
}

/// The characters of `s`, one by one.
pub fn chars_of(s: &str) -> (chars: Vec<char>)
    ensures
        chars@ == s@,
{
    let mut chars: Vec<char> = Vec::new();
    for c in it: s.chars()
        invariant
            chars@ == s@.take(it.index() as int),
            it.seq() == s@,
    {
        chars.push(c);
    }
    chars
}

/// The value of the ASCII digit `c`, if it is one.
pub fn to_digit(c: char) -> (d: Option<u32>)
    ensures
        d is Some <==> is_digit(c),
        d matches Some(v) ==> v == digit_value(c),
{
    if '0' <= c && c <= '9' {
        Some(c as u32 - '0' as u32)
    } else {
        None
    }
}

/// Whether `c` is white space: a character with the Unicode property
/// `White_Space`.
pub open spec fn is_whitespace(c: char) -> bool {
    let n = c as nat;
    ||| 0x09 <= n <= 0x0D
    ||| n == 0x20
    ||| n == 0x85
    ||| n == 0xA0
    ||| n == 0x1680
    ||| 0x2000 <= n <= 0x200A
    ||| n == 0x2028
    ||| n == 0x2029
    ||| n == 0x202F
    ||| n == 0x205F
    ||| n == 0x3000
}

/// Tests whether `c` is white space.
pub fn is_space(c: char) -> (b: bool)
    ensures
        b == is_whitespace(c),
{
    let n: u32 = c as u32;
    (0x09 <= n && n <= 0x0D) || n == 0x20 || n == 0x85 || n == 0xA0 || n == 0x1680 || (0x2000 <= n
        && n <= 0x200A) || n == 0x2028 || n == 0x2029 || n == 0x202F || n == 0x205F || n == 0x3000
}

/// Whether every character of `s` is an ASCII digit.
pub open spec fn all_digits(s: Seq<char>) -> bool {
    forall|i: int| 0 <= i < s.len() ==> is_digit(#[trigger] s[i])
}

/// The number that the digits `s` denote in base ten; 0 for no digits.
pub open spec fn decimal_value(s: Seq<char>) -> nat
    decreases s.len(),
{
    if s.len() == 0 {
        0
    } else {
        decimal_value(s.drop_last()) * 10 + digit_value(s.last())
    }
}

/// `s` without the one `+` that may stand before a number.
pub open spec fn unsigned_part(s: Seq<char>) -> Seq<char> {
    if s.len() > 0 && s[0] == '+' {
        s.drop_first()
    } else {
        s
    }
}

/// The number that `s` denotes: at least one ASCII digit and nothing
/// else, but for one `+` in front. Leading zeros are allowed.
pub open spec fn spec_parse_decimal(s: Seq<char>) -> Option<nat> {
    let digits = unsigned_part(s);
    if digits.len() > 0 && all_digits(digits) {
        Some(decimal_value(digits))
    } else {
        None
    }
}

/// The `usize` that `s` denotes, if it denotes a number that fits.
pub open spec fn spec_parse_usize(s: Seq<char>) -> Option<usize> {
    match spec_parse_decimal(s) {
        Some(n) => if n <= usize::MAX {
            Some(n as usize)
        } else {
            None
        },
        None => None,
    }
}

/// The digits of `n` in base ten, without leading zeros.
pub open spec fn decimal(n: nat) -> Seq<char>
    decreases n,
{
    if n < 10 {
        seq![digit_char(n)]
    } else {
        decimal(n / 10).push(digit_char(n % 10))
    }
}

/// Reading one more digit multiplies by ten and adds the digit.
pub proof fn lemma_decimal_value_push(s: Seq<char>, c: char)
    ensures
        decimal_value(s.push(c)) == decimal_value(s) * 10 + digit_value(c),
{
    assert(s.push(c).drop_last() == s);
}

/// A number is at least what any prefix of its digits denotes.
pub proof fn lemma_decimal_value_prefix(s: Seq<char>, n: int)
    requires
        0 <= n <= s.len(),
    ensures
        decimal_value(s.take(n)) <= decimal_value(s),
    decreases s.len(),
{
    if n < s.len() {
        lemma_decimal_value_prefix(s.drop_last(), n);
        assert(s.drop_last().take(n) == s.take(n));
    } else {
        assert(s.take(n) == s);
    }
}

/// Parses a number as `str::parse::<usize>` does.
pub fn parse_usize(s: &str) -> (r: Option<usize>)
    ensures
        r == spec_parse_usize(s@),
{
    let chars = chars_of(s);
    let start: usize = if chars.len() > 0 && chars[0] == '+' {
        1
    } else {
        0
    };
    let ghost digits = unsigned_part(s@);
    assert(digits == chars@.skip(start as int));
    if start == chars.len() {
        return None;
    }
    let mut value: usize = 0;
    let mut i: usize = start;
    while i < chars.len()
        invariant
            start <= i <= chars.len(),
            digits == unsigned_part(s@),
            digits == chars@.skip(start as int),
            all_digits(digits.take(i - start)),
            value == decimal_value(digits.take(i - start)),
        decreases chars.len() - i,
    {
        let ghost before = digits.take(i - start);
        let ghost after = digits.take(i + 1 - start);
        proof {
            assert(after == before.push(chars@[i as int]));
            lemma_decimal_value_push(before, chars@[i as int]);
            lemma_decimal_value_prefix(digits, i + 1 - start);
        }
        let digit = match to_digit(chars[i]) {
            Some(d) => d as usize,
            None => {
                assert(!is_digit(digits[i - start]));
                return None;
            },
        };
        let tens = match value.checked_mul(10) {
            Some(t) => t,
            None => {
                return None;
            },
        };
        value = match tens.checked_add(digit) {
            Some(v) => v,
            None => {
                return None;
            },
        };
        i += 1;
    }
    assert(digits.take(i - start) == digits);
    Some(value)
}

/// The one-character string of the digit `d`.
fn digit_str(d: usize) -> (s: &'static str)
    requires
        d < 10,
    ensures
        s@ == seq![digit_char(d as nat)],
{
    proof {
        reveal_strlit("0");
        reveal_strlit("1");
        reveal_strlit("2");
        reveal_strlit("3");
        reveal_strlit("4");
        reveal_strlit("5");
        reveal_strlit("6");
        reveal_strlit("7");
        reveal_strlit("8");
        reveal_strlit("9");
    }
    let s = if d == 0 {
        "0"
    } else if d == 1 {
        "1"
    } else if d == 2 {
        "2"
    } else if d == 3 {
        "3"
    } else if d == 4 {
        "4"
    } else if d == 5 {
        "5"
    } else if d == 6 {
        "6"
    } else if d == 7 {
        "7"
    } else if d == 8 {
        "8"
    } else {
        "9"
    };
    assert(s@ =~= seq![digit_char(d as nat)]);
    s
}

/// Writes `n` in base ten, as `to_string` does.
pub fn to_decimal(n: usize) -> (s: String)
    ensures
        s@ == decimal(n as nat),
    decreases n,
{
    if n < 10 {
        String::from_str(digit_str(n))
    } else {
        let mut s = to_decimal(n / 10);
        s.append(digit_str(n % 10));
        s
    }
}

/// Whether `pat` stands in `s` at position `i`.
pub open spec fn occurs_at(s: Seq<char>, pat: Seq<char>, i: int) -> bool {
    0 <= i && i + pat.len() <= s.len() && s.subrange(i, i + pat.len()) == pat
}

/// The first position at or after `from` where `pat` stands in `s`.
/// An empty `pat` is never found.
pub open spec fn spec_find_from(s: Seq<char>, pat: Seq<char>, from: int) -> Option<int>
    decreases s.len() - from,
{
    if from < 0 || pat.len() == 0 || from + pat.len() > s.len() {
        None
    } else if occurs_at(s, pat, from) {
        Some(from)
    } else {
        spec_find_from(s, pat, from + 1)
    }
}

/// What `spec_find_from` returns is the least position at or after
/// `from` where `pat` stands, and there is none where it returns `None`.
pub proof fn lemma_find_from_least(s: Seq<char>, pat: Seq<char>, from: int)
    requires
        0 <= from,
        pat.len() > 0,
    ensures
        match spec_find_from(s, pat, from) {
            Some(i) => from <= i && occurs_at(s, pat, i) && forall|j: int|
                from <= j < i ==> !occurs_at(s, pat, j),
            None => forall|j: int| from <= j ==> !occurs_at(s, pat, j),
        },
    decreases s.len() - from,
{
    if from + pat.len() <= s.len() && !occurs_at(s, pat, from) {
        lemma_find_from_least(s, pat, from + 1);
    }
}

/// The pieces of `s` from `from` on that lie between the occurrences of
/// `pat`, taken from left to right without overlap.
pub open spec fn spec_split_from(s: Seq<char>, pat: Seq<char>, from: int) -> Seq<Seq<char>>
    decreases s.len() - from,
{
    match spec_find_from(s, pat, from) {
        Some(i) => {
            proof {
                if 0 <= from && pat.len() > 0 {
                    lemma_find_from_least(s, pat, from);
                }
            }
            if 0 <= from && pat.len() > 0 {
                seq![s.subrange(from, i)] + spec_split_from(s, pat, i + pat.len())
            } else {
                seq![s.subrange(from, s.len() as int)]
            }
        },
        None => seq![s.subrange(from, s.len() as int)],
    }
}

/// The pieces of `s` between the occurrences of `pat`: one more piece
/// than there are occurrences. An empty `pat` splits nothing.
pub open spec fn spec_split(s: Seq<char>, pat: Seq<char>) -> Seq<Seq<char>> {
    spec_split_from(s, pat, 0)
}

/// What stands before and after the first occurrence of `pat` in `s`.
pub open spec fn spec_split_once(s: Seq<char>, pat: Seq<char>) -> Option<(Seq<char>, Seq<char>)> {
    match spec_find_from(s, pat, 0) {
        Some(i) => Some((s.take(i), s.skip(i + pat.len()))),
        None => None,
    }
}

/// `line` without the carriage return that it may end in.
pub open spec fn strip_cr(line: Seq<char>) -> Seq<char> {
    if line.len() > 0 && line.last() == '\r' {
        line.drop_last()
    } else {
        line
    }
}

/// The lines of `s`. A line ends in a line feed, or in a carriage return
/// and a line feed; neither belongs to the line. What follows the last
/// line feed is a line too, unless it is empty.
pub open spec fn spec_lines(s: Seq<char>) -> Seq<Seq<char>> {
    let pieces = spec_split(s, seq!['\n']);
    let ended = Seq::new((pieces.len() - 1) as nat, |k: int| strip_cr(pieces[k]));
    if pieces.last().len() == 0 {
        ended
    } else {
        ended.push(pieces.last())
    }
}

/// The first position at or after `from` whose character is white space
/// if `space` is false, or is not if `space` is true; the length of `s`
/// if there is none.
pub open spec fn run_end(s: Seq<char>, from: int, space: bool) -> int
    decreases s.len() - from,
{
    if 0 <= from < s.len() && is_whitespace(s[from]) == space {
        run_end(s, from + 1, space)
    } else {
        from
    }
}

/// The last position up to `to` that does not follow white space.
pub open spec fn run_start(s: Seq<char>, to: int) -> int
    decreases to,
{
    if 0 < to <= s.len() && is_whitespace(s[to - 1]) {
        run_start(s, to - 1)
    } else {
        to
    }
}

/// `run_end` stops at the first character that is not of the kind it
/// passes over.
pub proof fn lemma_run_end(s: Seq<char>, from: int, space: bool)
    requires
        0 <= from <= s.len(),
    ensures
        from <= run_end(s, from, space) <= s.len(),
        forall|j: int| from <= j < run_end(s, from, space) ==> is_whitespace(s[j]) == space,
        run_end(s, from, space) < s.len() ==> is_whitespace(s[run_end(s, from, space)]) != space,
    decreases s.len() - from,
{
    if from < s.len() && is_whitespace(s[from]) == space {
        lemma_run_end(s, from + 1, space);
    }
}

/// The words of `s` from `from` on: the longest runs of characters that
/// are not white space.
pub open spec fn spec_words_from(s: Seq<char>, from: int) -> Seq<Seq<char>>
    decreases s.len() - from,
{
    if 0 <= from <= s.len() {
        let a = run_end(s, from, true);
        if a < s.len() {
            let b = run_end(s, a + 1, false);
            proof {
                lemma_run_end(s, from, true);
                lemma_run_end(s, a + 1, false);
            }
            seq![s.subrange(a, b)] + spec_words_from(s, b)
        } else {
            seq![]
        }
    } else {
        seq![]
    }
}

/// The words of `s`: what white space separates.
pub open spec fn spec_split_whitespace(s: Seq<char>) -> Seq<Seq<char>> {
    spec_words_from(s, 0)
}

/// `s` without the white space at its two ends.
pub open spec fn spec_trim(s: Seq<char>) -> Seq<char> {
    let a = run_end(s, 0, true);
    let b = run_start(s, s.len() as int);
    if a <= b {
        s.subrange(a, b)
    } else {
        seq![]
    }
}

/// The parts of `s` that `bounds` delimits, each by its first position
/// and the position after its last.
pub open spec fn cut(s: Seq<char>, bounds: Seq<(usize, usize)>) -> Seq<Seq<char>> {
    Seq::new(bounds.len(), |k: int| s.subrange(bounds[k].0 as int, bounds[k].1 as int))
}

/// Whether each pair of `bounds` delimits a part of a text of `len`
/// characters.
pub open spec fn within(bounds: Seq<(usize, usize)>, len: nat) -> bool {
    forall|k: int| 0 <= k < bounds.len() ==> (#[trigger] bounds[k]).0 <= bounds[k].1 <= len
}

/// The texts of the string slices `v`.
pub open spec fn strs(v: Seq<&str>) -> Seq<Seq<char>> {
    Seq::new(v.len(), |k: int| v[k]@)
}

/// Tests whether `pat` stands in `s` at position `i`.
fn matches_at(s: &Vec<char>, pat: &Vec<char>, i: usize) -> (b: bool)
    requires
        i + pat.len() <= s.len(),
    ensures
        b == occurs_at(s@, pat@, i as int),
{
    let mut k: usize = 0;
    while k < pat.len()
        invariant
            k <= pat.len(),
            i + pat.len() <= s.len(),
            forall|j: int| 0 <= j < k ==> s@[i + j] == pat@[j],
        decreases pat.len() - k,
    {
        if s[i + k] != pat[k] {
            assert(s@.subrange(i as int, i + pat.len())[k as int] == s@[i + k]);
            return false;
        }
        k += 1;
    }
    assert(s@.subrange(i as int, i + pat.len()) =~= pat@);
    true
}

/// Tests whether `pat` stands in `s` at position `i`, wherever `i` lies.
pub fn occurs(s: &Vec<char>, pat: &Vec<char>, i: usize) -> (b: bool)
    ensures
        b == occurs_at(s@, pat@, i as int),
{
    if i <= s.len() && pat.len() <= s.len() - i {
        matches_at(s, pat, i)
    } else {
        false
    }
}

/// Finds the first position at or after `from` where `pat` stands in `s`.
fn find_from(s: &Vec<char>, pat: &Vec<char>, from: usize) -> (r: Option<usize>)
    ensures
        spec_find_from(s@, pat@, from as int) == match r {
            Some(i) => Some(i as int),
            None => None::<int>,
        },
        r matches Some(i) ==> from <= i && i + pat.len() <= s.len() && pat.len() > 0,
{
    if pat.len() == 0 || pat.len() > s.len() {
        return None;
    }
    let last: usize = s.len() - pat.len();
    let mut i: usize = from;
    while i <= last
        invariant
            from <= i,
            pat.len() > 0,
            last == s.len() - pat.len(),
            spec_find_from(s@, pat@, i as int) == spec_find_from(s@, pat@, from as int),
        decreases last + 1 - i,
    {
        if matches_at(s, pat, i) {
            return Some(i);
        }
        i += 1;
    }
    None
}

/// Finds where the pieces of `s` between the occurrences of `pat` lie.
fn split_bounds(s: &Vec<char>, pat: &Vec<char>) -> (bounds: Vec<(usize, usize)>)
    ensures
        within(bounds@, s@.len()),
        cut(s@, bounds@) == spec_split(s@, pat@),
{
    let mut bounds: Vec<(usize, usize)> = Vec::new();
    let mut start: usize = 0;
    let mut done = false;
    while !done
        invariant
            start <= s.len(),
            within(bounds@, s@.len()),
            !done ==> cut(s@, bounds@) + spec_split_from(s@, pat@, start as int) == spec_split(
                s@,
                pat@,
            ),
            done ==> cut(s@, bounds@) == spec_split(s@, pat@),
        decreases
                if done {
                    0
                } else {
                    s.len() - start + 1
                },
    {
        let ghost before = bounds@;
        match find_from(s, pat, start) {
            Some(i) => {
                bounds.push((start, i));
                assert(cut(s@, bounds@) + spec_split_from(s@, pat@, i + pat.len()) =~= cut(
                    s@,
                    before,
                ) + spec_split_from(s@, pat@, start as int));
                start = i + pat.len();
            },
            None => {
                bounds.push((start, s.len()));
                assert(cut(s@, bounds@) =~= cut(s@, before) + spec_split_from(
                    s@,
                    pat@,
                    start as int,
                ));
                done = true;
            },
        }
    }
    bounds
}

/// Takes out of `s` the parts that `bounds` delimits.
fn slices<'a>(s: &'a str, bounds: &Vec<(usize, usize)>) -> (parts: Vec<&'a str>)
    requires
        within(bounds@, s@.len()),
    ensures
        strs(parts@) == cut(s@, bounds@),
{
    let mut parts: Vec<&'a str> = Vec::new();
    let mut k: usize = 0;
    while k < bounds.len()
        invariant
            k <= bounds.len(),
            within(bounds@, s@.len()),
            strs(parts@) == cut(s@, bounds@.take(k as int)),
        decreases bounds.len() - k,
    {
        let (a, b) = bounds[k];
        let ghost before = parts@;
        parts.push(s.substring_char(a, b));
        assert(strs(parts@) =~= strs(before).push(s@.subrange(a as int, b as int)));
        assert(cut(s@, bounds@.take(k + 1)) =~= cut(s@, bounds@.take(k as int)).push(
            s@.subrange(a as int, b as int),
        ));
        k += 1;
    }
    assert(bounds@.take(k as int) == bounds@);
    parts
}

/// Splits `s` at every occurrence of `pat`, as `str::split` does for a
/// `pat` that is not empty.
pub fn split<'a>(s: &'a str, pat: &str) -> (parts: Vec<&'a str>)
    ensures
        strs(parts@) == spec_split(s@, pat@),
{
    let chars = chars_of(s);
    let pat_chars = chars_of(pat);
    let bounds = split_bounds(&chars, &pat_chars);
    slices(s, &bounds)
}

/// Splits `s` at the first occurrence of `pat`, as `str::split_once` does
/// for a `pat` that is not empty.
pub fn split_once<'a>(s: &'a str, pat: &str) -> (r: Option<(&'a str, &'a str)>)
    ensures
        spec_split_once(s@, pat@) == match r {
            Some((before, after)) => Some((before@, after@)),
            None => None::<(Seq<char>, Seq<char>)>,
        },
{
    let chars = chars_of(s);
    let pat_chars = chars_of(pat);
    match find_from(&chars, &pat_chars, 0) {
        Some(i) => Some(
            (s.substring_char(0, i), s.substring_char(i + pat_chars.len(), chars.len())),
        ),
        None => None,
    }
}

/// Splits `s` into its lines, as `str::lines` does.
pub fn lines<'a>(s: &'a str) -> (parts: Vec<&'a str>)
    ensures
        strs(parts@) == spec_lines(s@),
{
    let chars = chars_of(s);
    let feed: Vec<char> = vec!['\n'];
    assert(feed@ == seq!['\n']);
    let pieces = split_bounds(&chars, &feed);
    let ghost all = spec_split(s@, seq!['\n']);
    assert(pieces@.len() == cut(s@, pieces@).len());
    let mut bounds: Vec<(usize, usize)> = Vec::new();
    let mut k: usize = 0;
    while k + 1 < pieces.len()
        invariant
            chars@ == s@,
            k < pieces.len(),
            within(pieces@, s@.len()),
            within(bounds@, s@.len()),
            cut(s@, pieces@) == all,
            bounds@.len() == k,
            cut(s@, bounds@) == Seq::new(k as nat, |j: int| strip_cr(all[j])),
        decreases pieces.len() - k,
    {
        let (a, b) = pieces[k];
        let ghost before = bounds@;
        assert(all[k as int] == s@.subrange(a as int, b as int));
        if a < b && chars[b - 1] == '\r' {
            bounds.push((a, (b - 1) as usize));
            assert(s@.subrange(a as int, b as int).last() == s@[b - 1]);
            assert(s@.subrange(a as int, b as int).drop_last() == s@.subrange(a as int, b - 1));
        } else {
            bounds.push((a, b));
            assert(a < b ==> s@.subrange(a as int, b as int).last() == s@[b - 1]);
        }
        assert(cut(s@, bounds@)[k as int] == strip_cr(all[k as int]));
        assert forall|j: int| 0 <= j < k implies cut(s@, bounds@)[j] == strip_cr(all[j]) by {
            assert(cut(s@, bounds@)[j] == cut(s@, before)[j]);
        }
        assert(cut(s@, bounds@) =~= Seq::new((k + 1) as nat, |j: int| strip_cr(all[j])));
        k += 1;
    }
    let (a, b) = pieces[k];
    assert(all[k as int] == s@.subrange(a as int, b as int));
    if a < b {
        let ghost before = bounds@;
        bounds.push((a, b));
        assert(cut(s@, bounds@) =~= cut(s@, before).push(all.last()));
    }
    slices(s, &bounds)
}

/// Splits `s` into its words, as `str::split_whitespace` does.
pub fn split_whitespace<'a>(s: &'a str) -> (parts: Vec<&'a str>)
    ensures
        strs(parts@) == spec_split_whitespace(s@),
{
    let chars = chars_of(s);
    let mut bounds: Vec<(usize, usize)> = Vec::new();
    let mut i: usize = 0;
    let mut done = false;
    while !done
        invariant
            chars@ == s@,
            i <= chars.len(),
            within(bounds@, s@.len()),
            !done ==> cut(s@, bounds@) + spec_words_from(s@, i as int) == spec_split_whitespace(
                s@,
            ),
            done ==> cut(s@, bounds@) == spec_split_whitespace(s@),
        decreases
                if done {
                    0
                } else {
                    chars.len() - i + 1
                },
    {
        let ghost from = i;
        let a = skip_run(&chars, i, true);
        if a < chars.len() {
            let b = skip_run(&chars, a + 1, false);
            let ghost before = bounds@;
            bounds.push((a, b));
            assert(cut(s@, bounds@) + spec_words_from(s@, b as int) =~= cut(s@, before)
                + spec_words_from(s@, from as int));
            i = b;
        } else {
            assert(cut(s@, bounds@) =~= cut(s@, bounds@) + spec_words_from(s@, from as int));
            done = true;
        }
    }
    slices(s, &bounds)
}

/// Passes over the characters of `s` from `from` on that are white space,
/// if `space` is true, or are not, if it is false.
fn skip_run(s: &Vec<char>, from: usize, space: bool) -> (end: usize)
    requires
        from <= s.len(),
    ensures
        end == run_end(s@, from as int, space),
        from <= end <= s.len(),
{
    let mut i: usize = from;
    while i < s.len() && is_space(s[i]) == space
        invariant
            from <= i <= s.len(),
            run_end(s@, i as int, space) == run_end(s@, from as int, space),
        decreases s.len() - i,
    {
        i += 1;
    }
    i
}

/// Removes the white space at the two ends of `s`, as `str::trim` does.
pub fn trim<'a>(s: &'a str) -> (t: &'a str)
    ensures
        t@ == spec_trim(s@),
{
    let chars = chars_of(s);
    let a = skip_run(&chars, 0, true);
    let mut b: usize = chars.len();
    while b > 0 && is_space(chars[b - 1])
        invariant
            b <= chars.len(),
            run_start(chars@, b as int) == run_start(chars@, chars.len() as int),
        decreases b,
    {
        b -= 1;
    }
    if a <= b {
        s.substring_char(a, b)
    } else {
        let t = s.substring_char(0, 0);
        assert(t@ =~= seq![]);
        t
    }
}

/// Every split has at least one piece.
pub proof fn lemma_split_not_empty(s: Seq<char>, pat: Seq<char>)
    ensures
        spec_split(s, pat).len() > 0,
{
}

/// Tests whether `a` and `b` hold the same text.
pub fn text_eq(a: &str, b: &str) -> (same: bool)
    ensures
        same == (a@ == b@),
{
    let left = chars_of(a);
    let right = chars_of(b);
    if left.len() != right.len() {
        return false;
    }
    let mut k: usize = 0;
    while k < left.len()
        invariant
            k <= left.len(),
            left@ == a@,
            right@ == b@,
            left.len() == right.len(),
            forall|j: int| 0 <= j < k ==> left@[j] == right@[j],
        decreases left.len() - k,
    {
        if left[k] != right[k] {
            return false;
        }
        k += 1;
    }
    assert(left@ =~= right@);
    true
}

/// The numbers that the words of `text` denote, if every word denotes a
/// `usize`.
pub open spec fn spec_parse_numbers(text: Seq<char>) -> Option<Seq<usize>> {
    let words = spec_split_whitespace(text);
    all_some(Seq::new(words.len(), |k: int| spec_parse_usize(words[k])))
}

/// Reads the numbers that white space separates in `text`, if every word
/// of `text` is a number.
pub fn parse_numbers(text: &str) -> (r: Option<Vec<usize>>)
    ensures
        r is Some <==> spec_parse_numbers(text@) is Some,
        r matches Some(numbers) ==> numbers@ == spec_parse_numbers(text@)->0,
{
    let words = split_whitespace(text);
    let ghost all = spec_split_whitespace(text@);
    let ghost parsed = Seq::new(all.len(), |k: int| spec_parse_usize(all[k]));
    assert(words@.len() == strs(words@).len());
    let mut numbers: Vec<usize> = Vec::new();
    let mut k: usize = 0;
    while k < words.len()
        invariant
            k <= words.len(),
            words@.len() == all.len(),
            strs(words@) == all,
            all == spec_split_whitespace(text@),
            parsed == Seq::new(all.len(), |k: int| spec_parse_usize(all[k])),
            numbers@.len() == k,
            forall|i: int| 0 <= i < k ==> #[trigger] parsed[i] == Some(numbers@[i]),
        decreases words.len() - k,
    {
        assert(all[k as int] == words@[k as int]@) by {
            assert(strs(words@)[k as int] == words@[k as int]@);
        }
        match parse_usize(words[k]) {
            Some(n) => {
                numbers.push(n);
            },
            None => {
                assert(parsed[k as int] is None);
                return None;
            },
        }
        k += 1;
    }
    assert(numbers@ =~= all_some(parsed)->0);
    Some(numbers)
}

/// The digits of a number are digits, and they denote the number.
pub proof fn lemma_decimal_denotes(n: nat)
    ensures
        decimal(n).len() > 0,
        all_digits(decimal(n)),
        decimal_value(decimal(n)) == n,
    decreases n,
{
    let last = digit_char(n % 10);
    assert(is_digit(last) && digit_value(last) == n % 10);
    if n < 10 {
        assert(decimal(n).drop_last() =~= Seq::<char>::empty());
        assert(decimal_value(Seq::<char>::empty()) == 0);
    } else {
        lemma_decimal_denotes(n / 10);
        lemma_decimal_value_push(decimal(n / 10), last);
        assert forall|i: int| 0 <= i < decimal(n).len() implies is_digit(
            #[trigger] decimal(n)[i],
        ) by {
            if i < decimal(n / 10).len() {
                assert(decimal(n)[i] == decimal(n / 10)[i]);
            }
        }
    }
}

/// To write a number and to read what was written gives the number back.
pub proof fn lemma_parse_of_decimal(n: nat)
    ensures
        spec_parse_decimal(decimal(n)) == Some(n),
        n <= usize::MAX ==> spec_parse_usize(decimal(n)) == Some(n as usize),
{
    lemma_decimal_denotes(n);
    assert(is_digit(decimal(n)[0]));
}

/// `parts` put together again, with `pat` between every two of them.
pub open spec fn join(parts: Seq<Seq<char>>, pat: Seq<char>) -> Seq<char>
    decreases parts.len(),
{
    if parts.len() == 0 {
        seq![]
    } else if parts.len() == 1 {
        parts[0]
    } else {
        parts[0] + pat + join(parts.drop_first(), pat)
    }
}

/// The pieces from `from` on, put together again, are `s` from `from` on.
pub proof fn lemma_split_from_join(s: Seq<char>, pat: Seq<char>, from: int)
    requires
        0 <= from <= s.len(),
    ensures
        join(spec_split_from(s, pat, from), pat) == s.subrange(from, s.len() as int),
    decreases s.len() - from,
{
    match spec_find_from(s, pat, from) {
        Some(i) => {
            lemma_find_from_least(s, pat, from);
            let next = i + pat.len();
            let rest = spec_split_from(s, pat, next);
            let all = spec_split_from(s, pat, from);
            lemma_split_from_join(s, pat, next);
            assert(all == seq![s.subrange(from, i)] + rest);
            assert(rest.len() > 0);
            assert(all.drop_first() =~= rest);
            assert(s.subrange(i, next) == pat);
            assert(s.subrange(from, i) + s.subrange(i, next) + s.subrange(next, s.len() as int)
                =~= s.subrange(from, s.len() as int));
        },
        None => {},
    }
}

/// To split a text and to join the pieces gives the text back.
pub proof fn lemma_split_join(s: Seq<char>, pat: Seq<char>)
    ensures
        join(spec_split(s, pat), pat) == s,
{
    lemma_split_from_join(s, pat, 0);
    assert(s.subrange(0, s.len() as int) =~= s);
}

/// Whether `word` is not empty and holds no white space.
pub open spec fn is_word(word: Seq<char>) -> bool {
    word.len() > 0 && forall|j: int| 0 <= j < word.len() ==> !is_whitespace(#[trigger] word[j])
}

/// Each of the words of `s` from `from` on is not empty and holds no
/// white space.
pub proof fn lemma_words_from_are_words(s: Seq<char>, from: int)
    requires
        0 <= from <= s.len(),
    ensures
        forall|k: int|
            0 <= k < spec_words_from(s, from).len() ==> is_word(
                #[trigger] spec_words_from(s, from)[k],
            ),
    decreases s.len() - from,
{
    let a = run_end(s, from, true);
    lemma_run_end(s, from, true);
    if a < s.len() {
        let b = run_end(s, a + 1, false);
        lemma_run_end(s, a + 1, false);
        lemma_words_from_are_words(s, b);
        let all = spec_words_from(s, from);
        let rest = spec_words_from(s, b);
        assert(all == seq![s.subrange(a, b)] + rest);
        assert forall|k: int| 0 <= k < all.len() implies is_word(#[trigger] all[k]) by {
            if k > 0 {
                assert(all[k] == rest[k - 1]);
            }
        }
    }
}

/// Each of the words of `s` is not empty and holds no white space.
pub proof fn lemma_words_are_words(s: Seq<char>)
    ensures
        forall|k: int|
            0 <= k < spec_split_whitespace(s).len() ==> is_word(
                #[trigger] spec_split_whitespace(s)[k],
            ),
{
    lemma_words_from_are_words(s, 0);
}

/// `run_start` stops after the last character that is not white space.
pub proof fn lemma_run_start(s: Seq<char>, to: int)
    requires
        0 <= to <= s.len(),
    ensures
        0 <= run_start(s, to) <= to,
        forall|j: int| run_start(s, to) <= j < to ==> is_whitespace(s[j]),
        run_start(s, to) > 0 ==> !is_whitespace(s[run_start(s, to) - 1]),
    decreases to,
{
    if 0 < to && is_whitespace(s[to - 1]) {
        lemma_run_start(s, to - 1);
    }
}

/// A trimmed text neither starts nor ends with white space, and what was
/// trimmed away is white space.
pub proof fn lemma_trim(s: Seq<char>)
    ensures
        spec_trim(s).len() > 0 ==> !is_whitespace(spec_trim(s).first()) && !is_whitespace(
            spec_trim(s).last(),
        ),
        exists|a: int, b: int|
            {
                &&& 0 <= a <= b <= s.len()
                &&& #[trigger] s.subrange(a, b) == spec_trim(s)
                &&& forall|j: int| 0 <= j < a || b <= j < s.len() ==> is_whitespace(s[j])
            },
{
    let a = run_end(s, 0, true);
    let b = run_start(s, s.len() as int);
    lemma_run_end(s, 0, true);
    lemma_run_start(s, s.len() as int);
    if a <= b {
        assert(s.subrange(a, b) == spec_trim(s));
    } else {
        // every character is white space
        assert(a == s.len()) by {
            if a < s.len() {
                assert(!is_whitespace(s[a]));
            }
        }
        assert(s.subrange(a, a) =~= spec_trim(s));
    }
}

/// No piece of a text split at the character `c` holds `c`.
pub proof fn lemma_split_from_holds_no_separator(s: Seq<char>, c: char, from: int)
    requires
        0 <= from <= s.len(),
    ensures
        forall|k: int, j: int|
            0 <= k < spec_split_from(s, seq![c], from).len() && 0 <= j < spec_split_from(
                s,
                seq![c],
                from,
            )[k].len() ==> #[trigger] spec_split_from(s, seq![c], from)[k][j] != c,
    decreases s.len() - from,
{
    let pat = seq![c];
    let all = spec_split_from(s, pat, from);
    lemma_find_from_least(s, pat, from);
    assert forall|i: int| from <= i < s.len() && s[i] == c implies occurs_at(s, pat, i) by {
        assert(s.subrange(i, i + 1) =~= pat);
    }
    match spec_find_from(s, pat, from) {
        Some(i) => {
            let rest = spec_split_from(s, pat, i + 1);
            lemma_split_from_holds_no_separator(s, c, i + 1);
            assert(all == seq![s.subrange(from, i)] + rest);
            assert forall|k: int, j: int| 0 <= k < all.len() && 0 <= j < all[k].len() implies (
            #[trigger] all[k][j]) != c by {
                if k > 0 {
                    assert(all[k] == rest[k - 1]);
                } else {
                    assert(all[0][j] == s[from + j]);
                }
            }
        },
        None => {
            assert forall|k: int, j: int| 0 <= k < all.len() && 0 <= j < all[k].len() implies (
            #[trigger] all[k][j]) != c by {
                assert(all[0][j] == s[from + j]);
            }
        },
    }
}

/// No line holds a line feed.
pub proof fn lemma_lines_hold_no_feed(s: Seq<char>)
    ensures
        forall|k: int, j: int|
            0 <= k < spec_lines(s).len() && 0 <= j < spec_lines(s)[k].len() ==> #[trigger] spec_lines(
                s,
            )[k][j] != '\n',
{
    let pieces = spec_split(s, seq!['\n']);
    lemma_split_from_holds_no_separator(s, '\n', 0);
    assert forall|k: int, j: int|
        0 <= k < spec_lines(s).len() && 0 <= j < spec_lines(s)[k].len() implies #[trigger] spec_lines(
        s,
    )[k][j] != '\n' by {
        if k < pieces.len() - 1 {
            assert(spec_lines(s)[k] == strip_cr(pieces[k]));
            assert(spec_lines(s)[k][j] == pieces[k][j]);
        } else {
            assert(spec_lines(s)[k] == pieces.last());
            assert(spec_lines(s)[k][j] == pieces[pieces.len() - 1][j]);
        }
    }
}

} // verus!
