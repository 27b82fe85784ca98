//! Scratch cards: each line holds the winning numbers of a card and the
//! numbers played; a card scores by how many of the numbers played win,
//! and wins copies of the cards that follow it.
use crate::seqs::{
    all_some, fits, lemma_sum_all, lemma_sum_prefix, lemma_sum_take, lemma_sum_term, sum,
};
use crate::text::{
    decimal, lines, parse_numbers, spec_lines, spec_parse_numbers, spec_split_once, split_once,
    strs, to_decimal,
};
use vstd::arithmetic::power2::pow2;
use vstd::bits::{lemma_usize_pow2_no_overflow, lemma_usize_shl_is_mul};
use vstd::prelude::*;

verus! {

/// A card: its winning numbers and the numbers played.
pub struct Card {
    pub winning: Vec<usize>,
    pub played: Vec<usize>,
}

/// How many of `played` are among `winning`; a number played twice counts
/// twice.
pub open spec fn spec_matches(winning: Seq<usize>, played: Seq<usize>) -> nat
    decreases played.len(),
{
    if played.len() == 0 {
        0
    } else {
        spec_matches(winning, played.drop_last()) + if winning.contains(played.last()) {
            1nat
        } else {
            0nat
        }
    }
}

/// No more numbers win than are played.
pub proof fn lemma_matches_bound(winning: Seq<usize>, played: Seq<usize>)
    ensures
        spec_matches(winning, played) <= played.len(),
    decreases played.len(),
{
    if played.len() > 0 {
        lemma_matches_bound(winning, played.drop_last());
    }
}

/// The points of a card with `matches` winning numbers: 1 for the first
/// and twice as many for each further one; 0 for none.
pub open spec fn spec_points(matches: nat) -> nat {
    if matches == 0 {
        0
    } else {
        pow2((matches - 1) as nat)
    }
}

/// Tests whether `n` is one of `numbers`.
fn contains(numbers: &Vec<usize>, n: usize) -> (found: bool)
    ensures
        found == numbers@.contains(n),
{
    let mut k: usize = 0;
    while k < numbers.len()
        invariant
            k <= numbers.len(),
            forall|j: int| 0 <= j < k ==> numbers@[j] != n,
        decreases numbers.len() - k,
    {
        if numbers[k] == n {
            return true;
        }
        k += 1;
    }
    false
}

impl Card {
    /// Counts the numbers played that win.
    pub fn matches(&self) -> (count: usize)
        ensures
            count == spec_matches(self.winning@, self.played@),
    {
        let mut count: usize = 0;
        let mut k: usize = 0;
        while k < self.played.len()
            invariant
                k <= self.played.len(),
                count <= k,
                count == spec_matches(self.winning@, self.played@.take(k as int)),
            decreases self.played.len() - k,
        {
            assert(self.played@.take(k + 1).drop_last() == self.played@.take(k as int));
            if contains(&self.winning, self.played[k]) {
                count += 1;
            }
            k += 1;
        }
        assert(self.played@.take(k as int) == self.played@);
        count
    }

    /// The points of the card, if they fit in a `usize`.
    pub fn try_points(&self) -> (r: Option<usize>)
        ensures
            r is Some <==> spec_matches(self.winning@, self.played@) <= usize::BITS,
            r matches Some(points) ==> points == spec_points(
                spec_matches(self.winning@, self.played@),
            ),
    {
        let matches = self.matches();
        if matches == 0 {
            Some(0)
        } else if matches - 1 < usize::BITS as usize {
            let shift: usize = matches - 1;
            proof {
                lemma_usize_pow2_no_overflow(shift as nat);
                lemma_usize_shl_is_mul(1usize, shift);
            }
            Some(1usize << shift)
        } else {
            None
        }
    }

    /// The points of the card.
    pub fn points(&self) -> (points: usize)
        requires
            spec_matches(self.winning@, self.played@) <= usize::BITS,
        ensures
            points == spec_points(spec_matches(self.winning@, self.played@)),
    {
        self.try_points().unwrap()
    }
}

impl View for Card {
    type V = (Seq<usize>, Seq<usize>);

    /// The winning numbers and the numbers played.
    open spec fn view(&self) -> (Seq<usize>, Seq<usize>) {
        (self.winning@, self.played@)
    }
}

/// The card that `line` describes: after the first `:` the winning
/// numbers, a `|` and the numbers played. `None` if `line` has no `:` or
/// no `|` after it, or holds a word that is no number.
pub open spec fn spec_card(line: Seq<char>) -> Option<(Seq<usize>, Seq<usize>)> {
    match spec_split_once(line, ":"@) {
        Some((_, numbers)) => match spec_split_once(numbers, "|"@) {
            Some((left, right)) => match (spec_parse_numbers(left), spec_parse_numbers(right)) {
                (Some(winning), Some(played)) => Some((winning, played)),
                _ => None,
            },
            None => None,
        },
        None => None,
    }
}

/// The cards that the lines of `input` describe; `None` if a line
/// describes none.
pub open spec fn spec_cards(input: Seq<char>) -> Option<Seq<(Seq<usize>, Seq<usize>)>> {
    let records = spec_lines(input);
    all_some(Seq::new(records.len(), |k: int| spec_card(records[k])))
}

/// What each of `cards` holds.
pub open spec fn cards_view(cards: Seq<Card>) -> Seq<(Seq<usize>, Seq<usize>)> {
    Seq::new(cards.len(), |k: int| cards[k]@)
}

/// Reads a card, if `line` describes one.
fn parse_card(line: &str) -> (r: Option<Card>)
    ensures
        r is Some <==> spec_card(line@) is Some,
        r matches Some(card) ==> card@ == spec_card(line@)->0,
{
    let numbers = match split_once(line, ":") {
        Some((_, numbers)) => numbers,
        None => {
            return None;
        },
    };
    let (left, right) = match split_once(numbers, "|") {
        Some(halves) => halves,
        None => {
            return None;
        },
    };
    let winning = match parse_numbers(left) {
        Some(winning) => winning,
        None => {
            return None;
        },
    };
    let played = match parse_numbers(right) {
        Some(played) => played,
        None => {
            return None;
        },
    };
    Some(Card { winning, played })
}

/// Reads the cards of `input`, if every line describes a card.
pub fn try_parse_cards(input: &str) -> (r: Option<Vec<Card>>)
    ensures
        r is Some <==> spec_cards(input@) is Some,
        r matches Some(cards) ==> cards_view(cards@) == spec_cards(input@)->0,
{
    let records = lines(input);
    let ghost all = spec_lines(input@);
    let ghost parsed = Seq::new(all.len(), |k: int| spec_card(all[k]));
    assert(records@.len() == strs(records@).len());
    let mut cards: Vec<Card> = Vec::new();
    let mut k: usize = 0;
    while k < records.len()
        invariant
            k <= records.len(),
            records@.len() == all.len(),
            strs(records@) == all,
            all == spec_lines(input@),
            parsed == Seq::new(all.len(), |k: int| spec_card(all[k])),
            cards@.len() == k,
            forall|i: int| 0 <= i < k ==> #[trigger] parsed[i] == Some(cards@[i]@),
        decreases records.len() - k,
    {
        assert(all[k as int] == records@[k as int]@) by {
            assert(strs(records@)[k as int] == records@[k as int]@);
        }
        match parse_card(records[k]) {
            Some(card) => {
                cards.push(card);
            },
            None => {
                assert(parsed[k as int] is None);
                return None;
            },
        }
        k += 1;
    }
    assert(cards_view(cards@) =~= all_some(parsed)->0);
    Some(cards)
}

/// Reads the cards of `input`.
pub fn parse_cards(input: &str) -> (cards: Vec<Card>)
    requires
        spec_cards(input@) is Some,
    ensures
        cards_view(cards@) == spec_cards(input@)->0,
{
    try_parse_cards(input).unwrap()
}

/// How many numbers win on each of `cards`.
pub open spec fn matches_of(cards: Seq<(Seq<usize>, Seq<usize>)>) -> Seq<nat> {
    Seq::new(cards.len(), |k: int| spec_matches(cards[k].0, cards[k].1))
}

/// The sum of the points of the cards of `input`; `None` if a line
/// describes no card, or the points of a card do not fit in a `usize`.
pub open spec fn spec_part_1(input: Seq<char>) -> Option<nat> {
    match spec_cards(input) {
        Some(cards) => {
            let matches = matches_of(cards);
            if forall|k: int| 0 <= k < matches.len() ==> #[trigger] matches[k] <= usize::BITS {
                Some(sum(Seq::new(matches.len(), |k: int| spec_points(matches[k]))))
            } else {
                None
            }
        },
        None => None,
    }
}

/// Sums the points of the cards of `input` and writes the sum in base
/// ten, if every line describes a card and neither the points of a card
/// nor the sum overflow.
pub fn try_part_1(input: &str) -> (r: Option<String>)
    ensures
        r is Some <==> fits(spec_part_1(input@)),
        r matches Some(answer) ==> answer@ == decimal(spec_part_1(input@)->0),
{
    let cards = match try_parse_cards(input) {
        Some(cards) => cards,
        None => {
            return None;
        },
    };
    let ghost all = spec_cards(input@)->0;
    let ghost matches = matches_of(all);
    let ghost terms = Seq::new(matches.len(), |k: int| spec_points(matches[k]));
    let mut total: usize = 0;
    let mut k: usize = 0;
    while k < cards.len()
        invariant
            k <= cards.len(),
            spec_cards(input@) == Some(all),
            cards_view(cards@) == all,
            cards@.len() == all.len(),
            matches == matches_of(all),
            terms == Seq::new(matches.len(), |k: int| spec_points(matches[k])),
            forall|i: int| 0 <= i < k ==> #[trigger] matches[i] <= usize::BITS,
            total == sum(terms.take(k as int)),
        decreases cards.len() - k,
    {
        proof {
            lemma_sum_take(terms, k as int);
            lemma_sum_prefix(terms, k + 1);
            assert(cards_view(cards@)[k as int] == cards@[k as int]@);
        }
        let points = match cards[k].try_points() {
            Some(points) => points,
            None => {
                assert(matches[k as int] > usize::BITS);
                return None;
            },
        };
        total =
        match total.checked_add(points) {
            Some(t) => t,
            None => {
                return None;
            },
        };
        k += 1;
    }
    proof {
        lemma_sum_all(terms);
    }
    Some(to_decimal(total))
}

/// Sums the points of the cards of `input` and writes the sum in base
/// ten.
pub fn part_1(input: &str) -> (answer: String)
    requires
        fits(spec_part_1(input@)),
    ensures
        answer@ == decimal(spec_part_1(input@)->0),
{
    try_part_1(input).unwrap()
}

/// How many copies of card `k` the cards before `upto` win, where
/// `matches` holds the winning numbers of each card: a card with `m`
/// winning numbers wins, with each of its copies, one copy of each of the
/// `m` cards after it.
pub open spec fn won_from(matches: Seq<nat>, k: int, upto: int) -> nat
    decreases k, upto,
{
    if 0 < upto <= k && k < matches.len() {
        won_from(matches, k, upto - 1) + if k - (upto - 1) <= matches[upto - 1] {
            copies(matches, upto - 1)
        } else {
            0
        }
    } else {
        0
    }
}

/// How many cards `k` there are in the end: the card itself and the
/// copies that the cards before it win.
pub open spec fn copies(matches: Seq<nat>, k: int) -> nat
    decreases k, k + 1,
{
    if 0 <= k < matches.len() {
        1 + won_from(matches, k, k)
    } else {
        0
    }
}

/// The more cards are taken into account, the more copies are won.
pub proof fn lemma_won_from_grows(matches: Seq<nat>, k: int, upto: int, later: int)
    requires
        0 <= upto <= later <= k < matches.len(),
    ensures
        won_from(matches, k, upto) <= won_from(matches, k, later),
    decreases later - upto,
{
    if upto < later {
        lemma_won_from_grows(matches, k, upto, later - 1);
    }
}

/// Whether each card wins copies of cards that exist only.
pub open spec fn wins_in_range(matches: Seq<nat>) -> bool {
    forall|j: int| 0 <= j < matches.len() ==> j + #[trigger] matches[j] < matches.len()
}

/// How many cards of each kind there are in the end, copies included.
pub open spec fn all_copies(matches: Seq<nat>) -> Seq<nat> {
    Seq::new(matches.len(), |k: int| copies(matches, k))
}

/// How many cards there are in the end, copies included; `None` if
/// a line describes no card, or a card wins copies of cards beyond the
/// last.
pub open spec fn spec_part_2(input: Seq<char>) -> Option<nat> {
    match spec_cards(input) {
        Some(cards) => {
            let matches = matches_of(cards);
            if wins_in_range(matches) {
                Some(sum(all_copies(matches)))
            } else {
                None
            }
        },
        None => None,
    }
}

/// Counts the winning numbers of each card.
fn card_matches(cards: &Vec<Card>) -> (counts: Vec<usize>)
    ensures
        counts@.len() == cards@.len(),
        forall|k: int|
            0 <= k < counts@.len() ==> #[trigger] counts@[k] == matches_of(cards_view(cards@))[k],
{
    let mut counts: Vec<usize> = Vec::new();
    let mut k: usize = 0;
    while k < cards.len()
        invariant
            k <= cards.len(),
            counts@.len() == k,
            forall|i: int|
                0 <= i < k ==> #[trigger] counts@[i] == matches_of(cards_view(cards@))[i],
        decreases cards.len() - k,
    {
        counts.push(cards[k].matches());
        k += 1;
    }
    counts
}

/// Counts the cards that there are in the end, copies included, and
/// writes the count in base ten, if every line describes a card, no card
/// wins copies of cards beyond the last, and the count fits in a `usize`.
pub fn try_part_2(input: &str) -> (r: Option<String>)
    ensures
        r is Some <==> fits(spec_part_2(input@)),
        r matches Some(answer) ==> answer@ == decimal(spec_part_2(input@)->0),
{
    let cards = match try_parse_cards(input) {
        Some(cards) => cards,
        None => {
            return None;
        },
    };
    let card_matches = card_matches(&cards);
    let ghost matches = matches_of(spec_cards(input@)->0);
    let ghost terms = all_copies(matches);
    let n = card_matches.len();
    let mut counts: Vec<usize> = Vec::new();
    let mut k: usize = 0;
    while k < n
        invariant
            k <= n,
            counts@.len() == k,
            forall|i: int| 0 <= i < k ==> #[trigger] counts@[i] == 1,
        decreases n - k,
    {
        counts.push(1);
        k += 1;
    }
    // after card `i`, `counts` holds for the cards up to `i` how many there
    // are in the end, and for a later card what the cards up to `i` have
    // won of it, the card itself included
    let mut i: usize = 0;
    while i < n
        invariant
            i <= n,
            n == matches.len(),
            counts@.len() == n,
            card_matches@.len() == n,
            spec_cards(input@) is Some,
            matches == matches_of(spec_cards(input@)->0),
            terms == all_copies(matches),
            forall|j: int| 0 <= j < n ==> #[trigger] card_matches@[j] == matches[j],
            forall|j: int| 0 <= j < i ==> j + #[trigger] matches[j] < n,
            forall|j: int|
                0 <= j < n ==> #[trigger] counts@[j] == 1 + won_from(
                    matches,
                    j,
                    if j < i {
                        j
                    } else {
                        i as int
                    },
                ),
        decreases n - i,
    {
        let won = card_matches[i];
        if won >= n - i {
            assert(!(i + matches[i as int] < matches.len()));
            return None;
        }
        let mut offset: usize = 1;
        while offset <= won
            invariant
                i < n,
                1 <= offset <= won + 1,
                i + won < n,
                won == matches[i as int],
                n == matches.len(),
                counts@.len() == n,
                spec_cards(input@) is Some,
                matches == matches_of(spec_cards(input@)->0),
                terms == all_copies(matches),
                forall|j: int|
                    0 <= j < n ==> #[trigger] counts@[j] == 1 + won_from(
                        matches,
                        j,
                        if j <= i {
                            j
                        } else if j < i + offset {
                            i + 1
                        } else {
                            i as int
                        },
                    ),
            decreases won + 1 - offset,
        {
            let target = i + offset;
            let ghost before = counts@;
            proof {
                lemma_won_from_grows(matches, target as int, i + 1, target as int);
                lemma_sum_term(terms, target as int);
                assert(before[i as int] == copies(matches, i as int));
                assert(won_from(matches, target as int, i + 1) == won_from(
                    matches,
                    target as int,
                    i as int,
                ) + copies(matches, i as int));
                assert(terms[target as int] == copies(matches, target as int));
            }
            let more = match counts[target].checked_add(counts[i]) {
                Some(more) => more,
                None => {
                    return None;
                },
            };
            counts.set(target, more);
            offset += 1;
        }
        i += 1;
    }
    let mut total: usize = 0;
    let mut k: usize = 0;
    while k < n
        invariant
            k <= n,
            n == terms.len(),
            counts@.len() == n,
            spec_part_2(input@) == Some(sum(terms)),
            forall|j: int| 0 <= j < n ==> #[trigger] counts@[j] == terms[j],
            total == sum(terms.take(k as int)),
        decreases n - k,
    {
        proof {
            lemma_sum_take(terms, k as int);
            lemma_sum_prefix(terms, k + 1);
        }
        total =
        match total.checked_add(counts[k]) {
            Some(t) => t,
            None => {
                return None;
            },
        };
        k += 1;
    }
    proof {
        lemma_sum_all(terms);
    }
    Some(to_decimal(total))
}

/// Counts the cards that there are in the end, copies included, and
/// writes the count in base ten.
pub fn part_2(input: &str) -> (answer: String)
    requires
        fits(spec_part_2(input@)),
    ensures
        answer@ == decimal(spec_part_2(input@)->0),
{
    try_part_2(input).unwrap()
}

} // verus!
