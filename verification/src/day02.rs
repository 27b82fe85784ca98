//! Cube games: each line records a game, the rounds of a game are
//! separated by `;`, and a round names how many red, green and blue cubes
//! were shown.
use crate::seqs::{all_some, fits, lemma_sum_all, lemma_sum_prefix, lemma_sum_take, sum};
use crate::text::{
    decimal, lemma_split_not_empty, lines, parse_usize, spec_lines, spec_parse_usize, spec_split,
    spec_split_once, spec_trim, split, split_once, strs, text_eq, to_decimal, trim,
};
use vstd::prelude::*;

verus! {

/// One round of a game: the number of the game, and how many cubes of
/// each colour were shown.
#[derive(Clone, Copy, Debug, PartialEq, Eq)]
pub struct Round {
    pub id: usize,
    pub red: usize,
    pub green: usize,
    pub blue: usize,
}

impl Default for Round {
    /// A round of game 0 that shows no cube.
    fn default() -> (round: Round)
        ensures
            round == (Round { id: 0, red: 0, green: 0, blue: 0 }),
    {
        Round { id: 0, red: 0, green: 0, blue: 0 }
    }
}

/// The two halves of an entry of a round: what stands before and after
/// the first blank of the entry, once the white space at its ends is
/// removed. An entry without a blank has none.
pub open spec fn spec_entry(entry: Seq<char>) -> Option<(Seq<char>, Seq<char>)> {
    spec_split_once(spec_trim(entry), " "@)
}

/// Whether `name` is the name of a colour.
pub open spec fn is_colour(name: Seq<char>) -> bool {
    name == "red"@ || name == "green"@ || name == "blue"@
}

/// Whether `entry` can be read: it has no blank, or it is a number, a
/// blank and the name of a colour.
pub open spec fn entry_ok(entry: Seq<char>) -> bool {
    match spec_entry(entry) {
        Some((quantity, colour)) => spec_parse_usize(quantity) is Some && is_colour(colour),
        None => true,
    }
}

/// `round` after `entry` is read: the colour that the entry names shows
/// the number of the entry. An entry without a blank changes nothing.
pub open spec fn with_entry(round: Round, entry: Seq<char>) -> Round {
    match spec_entry(entry) {
        Some((quantity, colour)) => {
            let n = spec_parse_usize(quantity)->0;
            if colour == "red"@ {
                Round { red: n, ..round }
            } else if colour == "green"@ {
                Round { green: n, ..round }
            } else {
                Round { blue: n, ..round }
            }
        },
        None => round,
    }
}

/// The round of game `id` that `entries` describe: read from left to
/// right, so that of two entries for one colour the later counts.
pub open spec fn round_of(entries: Seq<Seq<char>>, id: usize) -> Round
    decreases entries.len(),
{
    if entries.len() == 0 {
        Round { id, red: 0, green: 0, blue: 0 }
    } else {
        with_entry(round_of(entries.drop_last(), id), entries.last())
    }
}

/// Whether every one of `entries` can be read.
pub open spec fn entries_ok(entries: Seq<Seq<char>>) -> bool {
    forall|j: int| 0 <= j < entries.len() ==> entry_ok(#[trigger] entries[j])
}

/// The round of game `id` that `text` describes by entries separated by
/// `,`; `None` if an entry cannot be read.
pub open spec fn spec_parse_round(text: Seq<char>, id: usize) -> Option<Round> {
    let entries = spec_split(text, ","@);
    if entries_ok(entries) {
        Some(round_of(entries, id))
    } else {
        None
    }
}

/// The number of the game whose record starts with `header`: what stands
/// after the first blank of `header`.
pub open spec fn spec_game_id(header: Seq<char>) -> Option<usize> {
    match spec_split_once(header, " "@) {
        Some((_, id)) => spec_parse_usize(id),
        None => None,
    }
}

/// The rounds of the game that `line` records: a header with the number
/// of the game, a `:`, and the rounds, separated by `;`. `None` if the
/// line has no `:`, if its header gives no number or if an entry of a
/// round cannot be read.
pub open spec fn spec_parse_line(line: Seq<char>) -> Option<Seq<Round>> {
    match spec_split_once(line, ":"@) {
        Some((header, values)) => match spec_game_id(header) {
            Some(id) => {
                let texts = spec_split(values, ";"@);
                all_some(Seq::new(texts.len(), |k: int| spec_parse_round(texts[k], id)))
            },
            None => None,
        },
        None => None,
    }
}

/// Reads one round of game `id`.
fn parse_round(text: &str, id: usize) -> (r: Option<Round>)
    ensures
        r == spec_parse_round(text@, id),
{
    let entries = split(text, ",");
    let ghost all = spec_split(text@, ","@);
    let mut round = Round { id, red: 0, green: 0, blue: 0 };
    let mut j: usize = 0;
    assert(entries@.len() == strs(entries@).len());
    while j < entries.len()
        invariant
            j <= entries.len(),
            entries@.len() == all.len(),
            strs(entries@) == all,
            all == spec_split(text@, ","@),
            entries_ok(all.take(j as int)),
            round == round_of(all.take(j as int), id),
        decreases entries.len() - j,
    {
        let ghost entry = all[j as int];
        assert(entry == entries@[j as int]@) by {
            assert(strs(entries@)[j as int] == entries@[j as int]@);
        }
        assert(all.take(j + 1).drop_last() == all.take(j as int));
        match split_once(trim(entries[j]), " ") {
            Some((quantity_text, colour)) => {
                let quantity = match parse_usize(quantity_text) {
                    Some(q) => q,
                    None => {
                        assert(!entry_ok(all[j as int]));
                        return None;
                    },
                };
                if text_eq(colour, "red") {
                    round.red = quantity;
                } else if text_eq(colour, "green") {
                    round.green = quantity;
                } else if text_eq(colour, "blue") {
                    round.blue = quantity;
                } else {
                    assert(!entry_ok(all[j as int]));
                    return None;
                }
            },
            None => {},
        }
        assert(entry_ok(entry));
        assert forall|i: int| 0 <= i < j + 1 implies entry_ok(#[trigger] all.take(j + 1)[i]) by {
            if i < j {
                assert(all.take(j + 1)[i] == all.take(j as int)[i]);
            }
        }
        j += 1;
    }
    assert(all.take(j as int) == all);
    Some(round)
}

/// Reads the record of a game, if it can be read.
pub fn try_parse_line(line: &str) -> (r: Option<Vec<Round>>)
    ensures
        r is Some <==> spec_parse_line(line@) is Some,
        r matches Some(rounds) ==> rounds@ == spec_parse_line(line@)->0,
{
    let (header, values) = match split_once(line, ":") {
        Some(halves) => halves,
        None => {
            return None;
        },
    };
    let id_text = match split_once(header, " ") {
        Some((_, text)) => text,
        None => {
            return None;
        },
    };
    let id = match parse_usize(id_text) {
        Some(id) => id,
        None => {
            return None;
        },
    };
    let texts = split(values, ";");
    let ghost all = spec_split(values@, ";"@);
    let ghost parsed = Seq::new(all.len(), |k: int| spec_parse_round(all[k], id));
    assert(texts@.len() == strs(texts@).len());
    let mut rounds: Vec<Round> = Vec::new();
    let mut k: usize = 0;
    while k < texts.len()
        invariant
            k <= texts.len(),
            texts@.len() == all.len(),
            strs(texts@) == all,
            all == spec_split(values@, ";"@),
            parsed == Seq::new(all.len(), |k: int| spec_parse_round(all[k], id)),
            spec_split_once(line@, ":"@) == Some((header@, values@)),
            spec_game_id(header@) == Some(id),
            rounds@.len() == k,
            forall|i: int| 0 <= i < k ==> #[trigger] parsed[i] == Some(rounds@[i]),
        decreases texts.len() - k,
    {
        assert(all[k as int] == texts@[k as int]@) by {
            assert(strs(texts@)[k as int] == texts@[k as int]@);
        }
        match parse_round(texts[k], id) {
            Some(round) => {
                rounds.push(round);
            },
            None => {
                assert(parsed[k as int] is None);
                return None;
            },
        }
        k += 1;
    }
    assert(rounds@ =~= all_some(parsed)->0);
    Some(rounds)
}

/// Reads the record of a game.
pub fn parse_line(line: &str) -> (rounds: Vec<Round>)
    requires
        spec_parse_line(line@) is Some,
    ensures
        rounds@ == spec_parse_line(line@)->0,
{
    try_parse_line(line).unwrap()
}

/// Whether `round` could be played with 12 red, 13 green and 14 blue
/// cubes.
pub open spec fn round_feasible(round: Round) -> bool {
    round.red <= 12 && round.green <= 13 && round.blue <= 14
}

/// Whether every one of `rounds` could be played with 12 red, 13 green
/// and 14 blue cubes.
pub open spec fn feasible(rounds: Seq<Round>) -> bool {
    forall|i: int| 0 <= i < rounds.len() ==> round_feasible(#[trigger] rounds[i])
}

/// Tests whether a game could be played with 12 red, 13 green and 14 blue
/// cubes.
pub fn check_feasibility(rounds: &Vec<Round>) -> (possible: bool)
    ensures
        possible == feasible(rounds@),
{
    let mut k: usize = 0;
    while k < rounds.len()
        invariant
            k <= rounds.len(),
            forall|i: int| 0 <= i < k ==> round_feasible(#[trigger] rounds@[i]),
        decreases rounds.len() - k,
    {
        let round = &rounds[k];
        if !(round.red <= 12 && round.green <= 13 && round.blue <= 14) {
            return false;
        }
        k += 1;
    }
    true
}

/// The larger of `a` and `b`.
pub open spec fn larger(a: usize, b: usize) -> usize {
    if a >= b {
        a
    } else {
        b
    }
}

/// The fewest cubes with which every one of `rounds` can be played: for
/// each colour the largest number that a round shows, 0 if there is no
/// round. Its game number is 0.
pub open spec fn spec_fewest(rounds: Seq<Round>) -> Round
    decreases rounds.len(),
{
    if rounds.len() == 0 {
        Round { id: 0, red: 0, green: 0, blue: 0 }
    } else {
        let before = spec_fewest(rounds.drop_last());
        let round = rounds.last();
        Round {
            id: 0,
            red: larger(before.red, round.red),
            green: larger(before.green, round.green),
            blue: larger(before.blue, round.blue),
        }
    }
}

/// With the cubes of `spec_fewest` every round can be played, and with
/// one cube less of any colour some round cannot: each number is shown by
/// some round, or is 0.
pub proof fn lemma_fewest_is_least(rounds: Seq<Round>)
    ensures
        forall|i: int|
            0 <= i < rounds.len() ==> {
                &&& (#[trigger] rounds[i]).red <= spec_fewest(rounds).red
                &&& rounds[i].green <= spec_fewest(rounds).green
                &&& rounds[i].blue <= spec_fewest(rounds).blue
            },
        spec_fewest(rounds).red == 0 || exists|i: int|
            0 <= i < rounds.len() && (#[trigger] rounds[i]).red == spec_fewest(rounds).red,
        spec_fewest(rounds).green == 0 || exists|i: int|
            0 <= i < rounds.len() && (#[trigger] rounds[i]).green == spec_fewest(rounds).green,
        spec_fewest(rounds).blue == 0 || exists|i: int|
            0 <= i < rounds.len() && (#[trigger] rounds[i]).blue == spec_fewest(rounds).blue,
    decreases rounds.len(),
{
    if rounds.len() > 0 {
        let shorter = rounds.drop_last();
        let last = rounds.len() - 1;
        lemma_fewest_is_least(shorter);
        assert forall|i: int| 0 <= i < rounds.len() implies {
            &&& (#[trigger] rounds[i]).red <= spec_fewest(rounds).red
            &&& rounds[i].green <= spec_fewest(rounds).green
            &&& rounds[i].blue <= spec_fewest(rounds).blue
        } by {
            if i < last {
                assert(rounds[i] == shorter[i]);
            }
        }
        if spec_fewest(rounds).red != 0 {
            if spec_fewest(rounds).red == rounds[last].red {
            } else {
                let i = choose|i: int|
                    0 <= i < shorter.len() && (#[trigger] shorter[i]).red == spec_fewest(
                        shorter,
                    ).red;
                assert(rounds[i] == shorter[i]);
            }
        }
        if spec_fewest(rounds).green != 0 {
            if spec_fewest(rounds).green == rounds[last].green {
            } else {
                let i = choose|i: int|
                    0 <= i < shorter.len() && (#[trigger] shorter[i]).green == spec_fewest(
                        shorter,
                    ).green;
                assert(rounds[i] == shorter[i]);
            }
        }
        if spec_fewest(rounds).blue != 0 {
            if spec_fewest(rounds).blue == rounds[last].blue {
            } else {
                let i = choose|i: int|
                    0 <= i < shorter.len() && (#[trigger] shorter[i]).blue == spec_fewest(
                        shorter,
                    ).blue;
                assert(rounds[i] == shorter[i]);
            }
        }
    }
}

/// Finds the fewest cubes with which a game can be played.
pub fn check_fewest(rounds: &Vec<Round>) -> (fewest: Round)
    ensures
        fewest == spec_fewest(rounds@),
{
    let mut fewest = Round { id: 0, red: 0, green: 0, blue: 0 };
    let mut k: usize = 0;
    while k < rounds.len()
        invariant
            k <= rounds.len(),
            fewest == spec_fewest(rounds@.take(k as int)),
        decreases rounds.len() - k,
    {
        let round = &rounds[k];
        assert(rounds@.take(k + 1).drop_last() == rounds@.take(k as int));
        fewest =
        Round {
            id: 0,
            red: if fewest.red >= round.red {
                fewest.red
            } else {
                round.red
            },
            green: if fewest.green >= round.green {
                fewest.green
            } else {
                round.green
            },
            blue: if fewest.blue >= round.blue {
                fewest.blue
            } else {
                round.blue
            },
        };
        k += 1;
    }
    assert(rounds@.take(k as int) == rounds@);
    fewest
}

/// The games that the lines of `input` record; `None` if a line cannot be
/// read.
pub open spec fn spec_games(input: Seq<char>) -> Option<Seq<Seq<Round>>> {
    let records = spec_lines(input);
    all_some(Seq::new(records.len(), |k: int| spec_parse_line(records[k])))
}

/// For each game its number if it could be played with 12 red, 13 green
/// and 14 blue cubes, else 0.
pub open spec fn feasible_ids(games: Seq<Seq<Round>>) -> Seq<nat> {
    Seq::new(
        games.len(),
        |k: int|
            if feasible(games[k]) {
                games[k].first().id as nat
            } else {
                0
            },
    )
}

/// The sum of the numbers of the games of `input` that could be played
/// with 12 red, 13 green and 14 blue cubes; `None` if a line cannot be
/// read.
pub open spec fn spec_part_1(input: Seq<char>) -> Option<nat> {
    match spec_games(input) {
        Some(games) => Some(sum(feasible_ids(games))),
        None => None,
    }
}

/// The power of a set of cubes: the product of its three numbers, where
/// that product and the product of red and green fit in a `usize`.
pub open spec fn spec_power(cubes: Round) -> Option<nat> {
    if cubes.red * cubes.green <= usize::MAX && cubes.red * cubes.green * cubes.blue
        <= usize::MAX {
        Some((cubes.red * cubes.green * cubes.blue) as nat)
    } else {
        None
    }
}

/// The sum of the powers of the fewest cubes of each game of `input`;
/// `None` if a line cannot be read or a power does not fit.
pub open spec fn spec_part_2(input: Seq<char>) -> Option<nat> {
    match spec_games(input) {
        Some(games) => if forall|k: int|
            0 <= k < games.len() ==> spec_power(spec_fewest(#[trigger] games[k])) is Some {
            Some(sum(Seq::new(games.len(), |k: int| spec_power(spec_fewest(games[k]))->0)))
        } else {
            None
        },
        None => None,
    }
}

/// The rounds of each game.
pub open spec fn games_view(games: Seq<Vec<Round>>) -> Seq<Seq<Round>> {
    Seq::new(games.len(), |k: int| games[k]@)
}

/// Reads the games of `input`, if every line can be read.
fn parse_games(input: &str) -> (r: Option<Vec<Vec<Round>>>)
    ensures
        r is Some <==> spec_games(input@) is Some,
        r matches Some(games) ==> games_view(games@) == spec_games(input@)->0,
{
    let records = lines(input);
    let ghost all = spec_lines(input@);
    let ghost parsed = Seq::new(all.len(), |k: int| spec_parse_line(all[k]));
    assert(records@.len() == strs(records@).len());
    let mut games: Vec<Vec<Round>> = Vec::new();
    let mut k: usize = 0;
    while k < records.len()
        invariant
            k <= records.len(),
            records@.len() == all.len(),
            strs(records@) == all,
            all == spec_lines(input@),
            parsed == Seq::new(all.len(), |k: int| spec_parse_line(all[k])),
            games@.len() == k,
            forall|i: int| 0 <= i < k ==> #[trigger] parsed[i] == Some(games@[i]@),
        decreases records.len() - k,
    {
        assert(all[k as int] == records@[k as int]@) by {
            assert(strs(records@)[k as int] == records@[k as int]@);
        }
        match try_parse_line(records[k]) {
            Some(rounds) => {
                games.push(rounds);
            },
            None => {
                assert(parsed[k as int] is None);
                return None;
            },
        }
        k += 1;
    }
    assert(games_view(games@) =~= all_some(parsed)->0);
    Some(games)
}

/// Sums the numbers of the games of `input` that could be played with 12
/// red, 13 green and 14 blue cubes, and writes the sum in base ten, if
/// every line can be read and the sum fits in a `usize`.
pub fn try_part_1(input: &str) -> (r: Option<String>)
    ensures
        r is Some <==> fits(spec_part_1(input@)),
        r matches Some(answer) ==> answer@ == decimal(spec_part_1(input@)->0),
{
    let games = match parse_games(input) {
        Some(games) => games,
        None => {
            return None;
        },
    };
    let ghost all = spec_games(input@)->0;
    let ghost terms = feasible_ids(all);
    let mut total: usize = 0;
    let mut k: usize = 0;
    while k < games.len()
        invariant
            k <= games.len(),
            spec_games(input@) == Some(all),
            games_view(games@) == all,
            games@.len() == all.len(),
            terms == feasible_ids(all),
            total == sum(terms.take(k as int)),
        decreases games.len() - k,
    {
        proof {
            lemma_sum_take(terms, k as int);
            lemma_sum_prefix(terms, k + 1);
            let record = spec_lines(input@)[k as int];
            let halves = spec_split_once(record, ":"@)->0;
            lemma_split_not_empty(halves.1, ";"@);
            assert(games_view(games@)[k as int] == games@[k as int]@);
        }
        let rounds = &games[k];
        if check_feasibility(rounds) {
            total =
            match total.checked_add(rounds[0].id) {
                Some(t) => t,
                None => {
                    return None;
                },
            };
        }
        k += 1;
    }
    proof {
        lemma_sum_all(terms);
    }
    Some(to_decimal(total))
}

/// Sums the numbers of the games of `input` that could be played with 12
/// red, 13 green and 14 blue cubes, and writes the sum in base ten.
pub fn part_1(input: &str) -> (answer: String)
    requires
        fits(spec_part_1(input@)),
    ensures
        answer@ == decimal(spec_part_1(input@)->0),
{
    try_part_1(input).unwrap()
}

/// Multiplies the three numbers of `cubes`, if no product overflows.
fn power(cubes: Round) -> (r: Option<usize>)
    ensures
        r is Some <==> spec_power(cubes) is Some,
        r matches Some(p) ==> p == spec_power(cubes)->0,
{
    match cubes.red.checked_mul(cubes.green) {
        Some(p) => p.checked_mul(cubes.blue),
        None => None,
    }
}

/// Sums the powers of the fewest cubes of each game of `input` and writes
/// the sum in base ten, if every line can be read and neither a power nor
/// the sum overflows.
pub fn try_part_2(input: &str) -> (r: Option<String>)
    ensures
        r is Some <==> fits(spec_part_2(input@)),
        r matches Some(answer) ==> answer@ == decimal(spec_part_2(input@)->0),
{
    let games = match parse_games(input) {
        Some(games) => games,
        None => {
            return None;
        },
    };
    let ghost all = spec_games(input@)->0;
    let ghost terms = Seq::new(all.len(), |k: int| spec_power(spec_fewest(all[k]))->0);
    let mut total: usize = 0;
    let mut k: usize = 0;
    while k < games.len()
        invariant
            k <= games.len(),
            spec_games(input@) == Some(all),
            games_view(games@) == all,
            games@.len() == all.len(),
            terms == Seq::new(all.len(), |k: int| spec_power(spec_fewest(all[k]))->0),
            forall|i: int| 0 <= i < k ==> spec_power(spec_fewest(#[trigger] all[i])) is Some,
            total == sum(terms.take(k as int)),
        decreases games.len() - k,
    {
        proof {
            lemma_sum_take(terms, k as int);
            lemma_sum_prefix(terms, k + 1);
            assert(games_view(games@)[k as int] == games@[k as int]@);
        }
        let fewest = check_fewest(&games[k]);
        let p = match power(fewest) {
            Some(p) => p,
            None => {
                assert(spec_power(spec_fewest(all[k as int])) is None);
                return None;
            },
        };
        total =
        match total.checked_add(p) {
            Some(t) => t,
            None => {
                return None;
            },
        };
        k += 1;
    }
    proof {
        lemma_sum_all(terms);
    }
    Some(to_decimal(total))
}

/// Sums the powers of the fewest cubes of each game of `input` and writes
/// the sum in base ten.
pub fn part_2(input: &str) -> (answer: String)
    requires
        fits(spec_part_2(input@)),
    ensures
        answer@ == decimal(spec_part_2(input@)->0),
{
    try_part_2(input).unwrap()
}

} // verus!
