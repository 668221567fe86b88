//! Decks of cards: construction, drawing, shuffling, searching and format
//! validation.

use vstd::prelude::*;
use vstd::string::*;
use rand::rngs::StdRng;
use crate::cards::Card;
use crate::entity::EntityId;
use crate::text::{contains_text, text_contains};

verus! {

/// Formats a deck can be built for.
#[derive(Debug)]
pub enum DeckType {
    /// Standard format deck (60 card minimum)
    Standard,
    /// Commander/EDH format deck (100 card singleton with Commander)
    Commander,
    Modern,
    Legacy,
    Vintage,
    Pauper,
    Pioneer,
    /// Limited format deck (40 card minimum)
    Limited,
    Brawl,
    /// Custom format with special rules
    Custom(String),
}

impl Clone for DeckType {
    fn clone(&self) -> (r: Self)
        ensures
            r == *self,
    {
        match self {
            DeckType::Standard => DeckType::Standard,
            DeckType::Commander => DeckType::Commander,
            DeckType::Modern => DeckType::Modern,
            DeckType::Legacy => DeckType::Legacy,
            DeckType::Vintage => DeckType::Vintage,
            DeckType::Pauper => DeckType::Pauper,
            DeckType::Pioneer => DeckType::Pioneer,
            DeckType::Limited => DeckType::Limited,
            DeckType::Brawl => DeckType::Brawl,
            DeckType::Custom(s) => DeckType::Custom(s.clone()),
        }
    }
}

/// The smallest number of cards a deck of format `t` may hold.
pub open spec fn min_deck_size(t: DeckType) -> nat {
    match t {
        DeckType::Commander | DeckType::Brawl => 100,
        DeckType::Limited => 40,
        DeckType::Custom(_) => 0,
        _ => 60,
    }
}

/// How many copies of one card a deck of format `t` may hold.
pub open spec fn max_copies_allowed(t: DeckType) -> nat {
    match t {
        DeckType::Commander | DeckType::Brawl => 1,
        _ => 4,
    }
}

/// A deck of cards. The top of the deck is the end of `cards`.
#[derive(Debug)]
pub struct Deck {
    pub name: String,
    pub deck_type: DeckType,
    pub cards: Vec<Card>,
    pub commander: Option<EntityId>,
    pub partner: Option<EntityId>,
    pub owner: Option<EntityId>,
}

impl Clone for Deck {
    fn clone(&self) -> (r: Self)
        ensures
            r.name == self.name,
            r.deck_type == self.deck_type,
            r.cards@ == self.cards@,
            r.commander == self.commander,
            r.partner == self.partner,
            r.owner == self.owner,
    {
        Deck {
            name: self.name.clone(),
            deck_type: self.deck_type.clone(),
            cards: self.cards.clone(),
            commander: self.commander,
            partner: self.partner,
            owner: self.owner,
        }
    }
}

/// A player's deck held as a game component.
#[derive(Debug)]
pub struct PlayerDeck {
    pub deck: Deck,
}

impl PlayerDeck {
    /// Wraps a deck.
    pub fn new(deck: Deck) -> (p: PlayerDeck)
        ensures
            p.deck == deck,
    {
        PlayerDeck { deck }
    }

    /// Draws the top card of the deck.
    pub fn draw(&mut self) -> (r: Option<Card>)
        ensures
            final(self).deck.name == old(self).deck.name,
            final(self).deck.deck_type == old(self).deck.deck_type,
            final(self).deck.commander == old(self).deck.commander,
            final(self).deck.partner == old(self).deck.partner,
            final(self).deck.owner == old(self).deck.owner,
            old(self).deck.cards@.len() == 0 ==> r is None && final(self).deck.cards@ == old(self).deck.cards@,
            old(self).deck.cards@.len() > 0 ==> r == Some(old(self).deck.cards@.last())
                && final(self).deck.cards@ == old(self).deck.cards@.drop_last(),
    {
        self.deck.draw()
    }

    /// Draws up to `count` cards from the top of the deck.
    pub fn draw_multiple(&mut self, count: usize) -> (drawn: Vec<Card>)
        ensures
            drawn@ == drawn_cards(old(self).deck.cards@, count as nat),
            final(self).deck.cards@ == old(self).deck.cards@.take(
                old(self).deck.cards@.len() - drawn@.len(),
            ),
            final(self).deck.name == old(self).deck.name,
            final(self).deck.deck_type == old(self).deck.deck_type,
            final(self).deck.commander == old(self).deck.commander,
            final(self).deck.partner == old(self).deck.partner,
            final(self).deck.owner == old(self).deck.owner,
    {
        self.deck.draw_multiple(count)
    }
}

/// The cards that drawing `count` cards from the top of `cards` yields, in the
/// order they are drawn: the last card first.
pub open spec fn drawn_cards(cards: Seq<Card>, count: nat) -> Seq<Card> {
    let k = if count < cards.len() { count } else { cards.len() };
    Seq::new(k, |i: int| cards[cards.len() - 1 - i])
}

/// The test that `Deck::search` applies: the card's name contains `name`.
pub open spec fn name_matches(name: Seq<char>) -> spec_fn(Card) -> bool {
    |c: Card| contains_text(c.name@, name)
}

/// A random 64-bit seed from the thread-local generator (`rand::random`).
///
/// Trusted: nothing is claimed about the value.
#[verifier::external_body]
fn random_seed() -> u64 {
    rand::random::<u64>()
}

/// The outside random number generator type `rand::rngs::StdRng`.
#[verifier::external_type_specification]
#[verifier::external_body]
pub struct ExStdRng(StdRng);

/// A generator seeded with `seed` (`SeedableRng::seed_from_u64`).
///
/// Trusted: nothing is claimed about the generator's state.
#[verifier::external_body]
fn seeded_rng(seed: u64) -> StdRng {
    <StdRng as rand::SeedableRng>::seed_from_u64(seed)
}

/// Shuffles `items` in place with `SliceRandom::shuffle`.
///
/// Trusted: the items after the call are a permutation of the items before
/// it (the shuffle only swaps elements); which permutation is not claimed.
#[verifier::external_body]
fn shuffle_items<T>(items: &mut Vec<T>, rng: &mut StdRng)
    ensures
        final(items)@.to_multiset() == old(items)@.to_multiset(),
{
    rand::seq::SliceRandom::shuffle(items.as_mut_slice(), rng);
}

/// Problems that deck validation reports.
#[derive(Debug)]
pub enum DeckValidationError {
    /// Deck doesn't have enough cards
    TooFewCards { required: usize, actual: usize },
    /// Deck has illegal cards (e.g., banned cards)
    IllegalCards(Vec<String>),
    /// Deck has too many copies of a card
    TooManyCopies { card_name: String, max_allowed: usize, actual: usize },
    /// Deck has cards outside the Commander's color identity
    ColorIdentityViolation(Vec<String>),
    /// Commander is missing
    MissingCommander,
    /// Other validation errors
    OtherError(String),
}

/// The abstract content of a validation error.
pub enum DeckIssue {
    TooFewCards { required: nat, actual: nat },
    TooManyCopies { card_name: Seq<char>, max_allowed: nat, actual: nat },
    MissingCommander,
    Other,
}

impl DeckValidationError {
    /// What the error reports.
    pub open spec fn issue(&self) -> DeckIssue {
        match self {
            DeckValidationError::TooFewCards { required, actual } => DeckIssue::TooFewCards {
                required: *required as nat,
                actual: *actual as nat,
            },
            DeckValidationError::TooManyCopies { card_name, max_allowed, actual } =>
                DeckIssue::TooManyCopies {
                card_name: card_name@,
                max_allowed: *max_allowed as nat,
                actual: *actual as nat,
            },
            DeckValidationError::MissingCommander => DeckIssue::MissingCommander,
            _ => DeckIssue::Other,
        }
    }
}

/// The names of the cards, in deck order.
pub open spec fn card_names(cards: Seq<Card>) -> Seq<Seq<char>> {
    cards.map_values(|c: Card| c.name@)
}

/// The distinct names of `names`, each at its first occurrence.
pub open spec fn first_occurrences(names: Seq<Seq<char>>) -> Seq<Seq<char>>
    decreases names.len(),
{
    if names.len() == 0 {
        Seq::empty()
    } else {
        let earlier = first_occurrences(names.drop_last());
        if earlier.contains(names.last()) {
            earlier
        } else {
            earlier.push(names.last())
        }
    }
}

/// How many times `name` occurs in `names`.
pub open spec fn occurrences(names: Seq<Seq<char>>, name: Seq<char>) -> nat
    decreases names.len(),
{
    if names.len() == 0 {
        0
    } else {
        occurrences(names.drop_last(), name) + if names.last() == name { 1nat } else { 0nat }
    }
}

/// The copy-limit problems of a list of card names: each name that occurs more
/// than `max` times, in order of first occurrence.
pub open spec fn copy_issues(names: Seq<Seq<char>>, max: nat) -> Seq<DeckIssue> {
    first_occurrences(names).filter(|n: Seq<char>| occurrences(names, n) > max).map_values(
        |n: Seq<char>| DeckIssue::TooManyCopies { card_name: n, max_allowed: max, actual: occurrences(names, n) },
    )
}

/// Everything that `Deck::validate` reports about a deck, in report order:
/// too few cards, a missing commander, then each card over the copy limit
/// (not checked in Limited).
pub open spec fn deck_issues(deck: Deck) -> Seq<DeckIssue> {
    let n = deck.cards@.len();
    let min = min_deck_size(deck.deck_type);
    let size = if n < min {
        seq![DeckIssue::TooFewCards { required: min, actual: n }]
    } else {
        Seq::empty()
    };
    let commander = if deck.deck_type is Commander && deck.commander is None {
        seq![DeckIssue::MissingCommander]
    } else {
        Seq::empty()
    };
    let copies = if deck.deck_type is Limited {
        Seq::empty()
    } else {
        copy_issues(card_names(deck.cards@), max_copies_allowed(deck.deck_type))
    };
    size + commander + copies
}

/// A name has a first occurrence exactly when it occurs.
proof fn lemma_first_occurrences_contains(names: Seq<Seq<char>>, name: Seq<char>)
    ensures
        first_occurrences(names).contains(name) <==> names.contains(name),
    decreases names.len(),
{
    if names.len() > 0 {
        let init = names.drop_last();
        lemma_first_occurrences_contains(init, name);
        if names.contains(name) && name != names.last() {
            let i = choose|i: int| 0 <= i < names.len() && names[i] == name;
            assert(init[i] == name);
        }
        if init.contains(name) {
            let i = choose|i: int| 0 <= i < init.len() && init[i] == name;
            assert(names[i] == name);
        }
        assert(names[names.len() - 1] == names.last());
        let earlier = first_occurrences(init);
        let last = names.last();
        if !earlier.contains(last) {
            let pushed = earlier.push(last);
            assert(pushed[earlier.len() as int] == last);
            if earlier.contains(name) {
                let i = choose|i: int| 0 <= i < earlier.len() && earlier[i] == name;
                assert(pushed[i] == name);
            }
            if pushed.contains(name) && name != last {
                let i = choose|i: int| 0 <= i < pushed.len() && pushed[i] == name;
                assert(earlier[i] == name);
            }
        } else if name == last {
            assert(earlier.contains(name));
        }
    }
}

/// A name that does not occur has no occurrences.
proof fn lemma_occurrences_zero(names: Seq<Seq<char>>, name: Seq<char>)
    requires
        !names.contains(name),
    ensures
        occurrences(names, name) == 0,
    decreases names.len(),
{
    if names.len() > 0 {
        let init = names.drop_last();
        assert(!init.contains(name)) by {
            if init.contains(name) {
                let i = choose|i: int| 0 <= i < init.len() && init[i] == name;
                assert(names[i] == name);
            }
        }
        assert(names[names.len() - 1] == names.last());
        lemma_occurrences_zero(init, name);
    }
}

/// No name occurs twice in the first-occurrence list.
proof fn lemma_first_occurrences_distinct(names: Seq<Seq<char>>)
    ensures
        first_occurrences(names).no_duplicates(),
    decreases names.len(),
{
    if names.len() > 0 {
        lemma_first_occurrences_distinct(names.drop_last());
    }
}

impl Deck {
    /// A deck with the given name, format and cards, and no commander,
    /// partner or owner.
    pub fn new(name: String, deck_type: DeckType, cards: Vec<Card>) -> (d: Deck)
        ensures
            d.name == name,
            d.deck_type == deck_type,
            d.cards == cards,
            d.commander is None,
            d.partner is None,
            d.owner is None,
    {
        Deck { name, deck_type, cards, commander: None, partner: None, owner: None }
    }

    /// Sets the owner of the deck.
    pub fn set_owner(&mut self, owner: EntityId)
        ensures
            *final(self) == (Deck { owner: Some(owner), ..*old(self) }),
    {
        self.owner = Some(owner);
    }

    /// Sets the commander of the deck.
    pub fn set_commander(&mut self, commander: EntityId)
        ensures
            *final(self) == (Deck { commander: Some(commander), ..*old(self) }),
    {
        self.commander = Some(commander);
    }

    /// Sets the partner commander of the deck.
    pub fn set_partner(&mut self, partner: EntityId)
        ensures
            *final(self) == (Deck { partner: Some(partner), ..*old(self) }),
    {
        self.partner = Some(partner);
    }

    /// The number of cards in the deck.
    pub fn card_count(&self) -> (n: usize)
        ensures
            n == self.cards@.len(),
    {
        self.cards.len()
    }

    /// Checks the deck against the rules of its format.
    ///
    /// Returns `Ok(())` when nothing is wrong, and otherwise every problem
    /// found, in the order given by `deck_issues`.
    pub fn validate(&self) -> (r: Result<(), Vec<DeckValidationError>>)
        ensures
            r is Ok <==> deck_issues(*self).len() == 0,
            r matches Err(es) ==> es@.map_values(|e: DeckValidationError| e.issue()) == deck_issues(*self),
    {
        let ghost issue_of = |e: DeckValidationError| e.issue();
        let mut errors: Vec<DeckValidationError> = Vec::new();
        let min_size: usize = match self.deck_type {
            DeckType::Commander | DeckType::Brawl => 100,
            DeckType::Limited => 40,
            DeckType::Custom(_) => 0,
            _ => 60,
        };
        if self.cards.len() < min_size {
            errors.push(DeckValidationError::TooFewCards { required: min_size, actual: self.cards.len() });
        }
        let is_commander = match self.deck_type {
            DeckType::Commander => true,
            _ => false,
        };
        if is_commander && self.commander.is_none() {
            errors.push(DeckValidationError::MissingCommander);
        }
        let ghost n = self.cards@.len();
        let ghost min = min_deck_size(self.deck_type);
        let ghost size_part = if n < min {
            seq![DeckIssue::TooFewCards { required: min, actual: n }]
        } else {
            Seq::<DeckIssue>::empty()
        };
        let ghost commander_part = if self.deck_type is Commander && self.commander is None {
            seq![DeckIssue::MissingCommander]
        } else {
            Seq::<DeckIssue>::empty()
        };
        assert(errors@.map_values(issue_of) =~= size_part + commander_part);
        let is_limited = match self.deck_type {
            DeckType::Limited => true,
            _ => false,
        };
        if !is_limited {
            let ghost names = card_names(self.cards@);
            let mut counts: Vec<(String, usize)> = Vec::new();
            let mut i: usize = 0;
            while i < self.cards.len()
                invariant
                    names == card_names(self.cards@),
                    i <= self.cards@.len(),
                    counts@.map_values(|e: (String, usize)| e.0@) == first_occurrences(names.take(i as int)),
                    forall|j: int| 0 <= j < counts@.len() ==> #[trigger] counts@[j].1 == occurrences(names.take(i as int), counts@[j].0@),
                    forall|j: int| 0 <= j < counts@.len() ==> #[trigger] counts@[j].1 <= i,
                decreases self.cards@.len() - i,
            {
                let name = &self.cards[i].name;
                let ghost before = names.take(i as int);
                let ghost after = names.take(i + 1);
                proof {
                    assert(after =~= before.push(name@));
                    assert(after.drop_last() =~= before);
                    lemma_first_occurrences_distinct(before);
                }
                let mut j: usize = 0;
                let mut found = false;
                while j < counts.len() && !found
                    invariant
                        j <= counts@.len(),
                        found ==> j < counts@.len() && counts@[j as int].0@ == name@,
                        !found ==> forall|t: int| 0 <= t < j ==> counts@[t].0@ != name@,
                    decreases counts@.len() - j + if found { 0int } else { 1int },
                {
                    if counts[j].0 == *name {
                        found = true;
                    } else {
                        j = j + 1;
                    }
                }
                let ghost old_counts = counts@;
                proof {
                    let ks = old_counts.map_values(|e: (String, usize)| e.0@);
                    if found {
                        assert(ks[j as int] == name@);
                        assert(ks.contains(name@));
                    } else {
                        assert forall|t: int| 0 <= t < ks.len() implies ks[t] != name@ by {}
                        assert(!ks.contains(name@));
                    }
                }
                if found {
                    let entry_name = counts[j].0.clone();
                    let c = counts[j].1;
                    counts.set(j, (entry_name, c + 1));
                    proof {
                        let ks = old_counts.map_values(|e: (String, usize)| e.0@);
                        assert(counts@.map_values(|e: (String, usize)| e.0@) =~= ks);
                        assert forall|t: int| 0 <= t < counts@.len() implies #[trigger] counts@[t].1
                            == occurrences(after, counts@[t].0@) by {
                            assert(old_counts[t].1 == occurrences(before, old_counts[t].0@));
                            assert(occurrences(after, ks[t]) == occurrences(before, ks[t]) + if name@ == ks[t] { 1nat } else { 0nat });
                            if t != j {
                                assert(ks[t] != ks[j as int]);
                                assert(counts@[t] == old_counts[t]);
                                assert(counts@[t].1 == occurrences(after, counts@[t].0@));
                            } else {
                                assert(counts@[t].0@ == name@);
                                assert(counts@[t].1 == old_counts[t].1 + 1);
                                assert(counts@[t].1 == occurrences(after, counts@[t].0@));
                            }
                        }
                    }
                } else {
                    counts.push((name.clone(), 1));
                    proof {
                        let ks = old_counts.map_values(|e: (String, usize)| e.0@);
                        assert(counts@.map_values(|e: (String, usize)| e.0@) =~= ks.push(name@));
                        assert forall|t: int| 0 <= t < counts@.len() implies #[trigger] counts@[t].1
                            == occurrences(after, counts@[t].0@) by {
                            assert(occurrences(after, counts@[t].0@) == occurrences(before, counts@[t].0@) + if name@ == counts@[t].0@ { 1nat } else { 0nat });
                            if t < old_counts.len() {
                                assert(ks[t] != name@);
                                assert(counts@[t] == old_counts[t]);
                                assert(old_counts[t].1 == occurrences(before, old_counts[t].0@));
                            } else {
                                assert(counts@[t].0@ == name@);
                                assert(!before.contains(name@)) by {
                                    lemma_first_occurrences_contains(before, name@);
                                }
                                lemma_occurrences_zero(before, name@);
                            }
                        }
                    }
                }
                i = i + 1;
            }
            assert(names.take(self.cards@.len() as int) =~= names);
            let max_copies: usize = match self.deck_type {
                DeckType::Commander | DeckType::Brawl => 1,
                _ => 4,
            };
            let ghost maxn = max_copies as nat;
            let ghost over = |nm: Seq<char>| occurrences(names, nm) > maxn;
            let ghost as_issue = |nm: Seq<char>| DeckIssue::TooManyCopies { card_name: nm, max_allowed: maxn, actual: occurrences(names, nm) };
            let ghost base = errors@.map_values(issue_of);
            let mut k: usize = 0;
            while k < counts.len()
                invariant
                    names == card_names(self.cards@),
                    issue_of == (|e: DeckValidationError| e.issue()),
                    over == (|nm: Seq<char>| occurrences(names, nm) > maxn),
                    as_issue == (|nm: Seq<char>| DeckIssue::TooManyCopies { card_name: nm, max_allowed: maxn, actual: occurrences(names, nm) }),
                    maxn == max_copies as nat,
                    k <= counts@.len(),
                    counts@.map_values(|e: (String, usize)| e.0@) == first_occurrences(names),
                    forall|j: int| 0 <= j < counts@.len() ==> #[trigger] counts@[j].1 == occurrences(names, counts@[j].0@),
                    errors@.map_values(issue_of) == base + counts@.map_values(|e: (String, usize)| e.0@).take(k as int).filter(over).map_values(as_issue),
                decreases counts@.len() - k,
            {
                let ghost ks = counts@.map_values(|e: (String, usize)| e.0@);
                let ghost prev = errors@;
                proof {
                    assert(ks.take(k + 1) =~= ks.take(k as int).push(ks[k as int]));
                    ks.take(k as int).lemma_filter_push(ks[k as int], over);
                }
                if counts[k].1 > max_copies {
                    let card_name = counts[k].0.clone();
                    errors.push(DeckValidationError::TooManyCopies { card_name, max_allowed: max_copies, actual: counts[k].1 });
                    proof {
                        assert(errors@.map_values(issue_of) =~= prev.map_values(issue_of).push(as_issue(ks[k as int])));
                        assert(ks.take(k + 1).filter(over).map_values(as_issue) =~= ks.take(k as int).filter(over).map_values(as_issue).push(as_issue(ks[k as int])));
                    }
                }
                k = k + 1;
            }
            proof {
                let ks = counts@.map_values(|e: (String, usize)| e.0@);
                assert(ks.take(counts@.len() as int) =~= ks);
                assert(copy_issues(names, maxn) =~= first_occurrences(names).filter(over).map_values(as_issue));
            }
        }
        proof {
            if is_limited {
                assert(deck_issues(*self) =~= size_part + commander_part);
            } else {
                assert(deck_issues(*self) =~= size_part + commander_part + copy_issues(card_names(self.cards@), max_copies_allowed(self.deck_type)));
            }
        }
        if errors.len() == 0 {
            Ok(())
        } else {
            Err(errors)
        }
    }

    /// Puts the cards in a random order.
    pub fn shuffle(&mut self)
        ensures
            final(self).cards@.to_multiset() == old(self).cards@.to_multiset(),
            final(self).cards@.len() == old(self).cards@.len(),
            final(self).name == old(self).name,
            final(self).deck_type == old(self).deck_type,
            final(self).commander == old(self).commander,
            final(self).partner == old(self).partner,
            final(self).owner == old(self).owner,
    {
        let seed = random_seed();
        let mut rng = seeded_rng(seed);
        shuffle_items(&mut self.cards, &mut rng);
        proof {
            broadcast use vstd::seq_lib::group_to_multiset_ensures;
            assert(self.cards@.len() == self.cards@.to_multiset().len());
        }
    }

    /// Draws the top card, if there is one.
    pub fn draw(&mut self) -> (r: Option<Card>)
        ensures
            final(self).name == old(self).name,
            final(self).deck_type == old(self).deck_type,
            final(self).commander == old(self).commander,
            final(self).partner == old(self).partner,
            final(self).owner == old(self).owner,
            old(self).cards@.len() == 0 ==> r is None && final(self).cards@ == old(self).cards@,
            old(self).cards@.len() > 0 ==> r == Some(old(self).cards@.last())
                && final(self).cards@ == old(self).cards@.drop_last(),
    {
        self.cards.pop()
    }

    /// Draws up to `count` cards from the top, stopping when the deck is empty.
    pub fn draw_multiple(&mut self, count: usize) -> (drawn: Vec<Card>)
        ensures
            drawn@ == drawn_cards(old(self).cards@, count as nat),
            final(self).cards@ == old(self).cards@.take(old(self).cards@.len() - drawn@.len()),
            final(self).name == old(self).name,
            final(self).deck_type == old(self).deck_type,
            final(self).commander == old(self).commander,
            final(self).partner == old(self).partner,
            final(self).owner == old(self).owner,
    {
        let ghost start = self.cards@;
        let mut drawn: Vec<Card> = Vec::new();
        let mut n: usize = 0;
        while n < count
            invariant
                start == old(self).cards@,
                n <= count,
                n == drawn@.len(),
                n <= start.len(),
                self.cards@ == start.take(start.len() - n),
                drawn@ == drawn_cards(start, n as nat),
                self.name == old(self).name,
                self.deck_type == old(self).deck_type,
                self.commander == old(self).commander,
                self.partner == old(self).partner,
                self.owner == old(self).owner,
            decreases count - n,
        {
            match self.draw() {
                Some(card) => {
                    drawn.push(card);
                    n = n + 1;
                    assert(drawn@ =~= drawn_cards(start, n as nat));
                    assert(self.cards@ =~= start.take(start.len() - n));
                }
                None => {
                    assert(start == old(self).cards@);
                    assert(self.cards@.len() == 0);
                    assert(start.take(start.len() - n).len() == start.len() - n);
                    assert(n == start.len());
                    assert(drawn_cards(start, count as nat) =~= drawn_cards(start, n as nat));
                    return drawn;
                }
            }
        }
        drawn
    }

    /// Puts a card on top of the deck.
    pub fn add_top(&mut self, card: Card)
        ensures
            final(self).cards@ == old(self).cards@.push(card),
            final(self).name == old(self).name,
            final(self).deck_type == old(self).deck_type,
            final(self).commander == old(self).commander,
            final(self).partner == old(self).partner,
            final(self).owner == old(self).owner,
    {
        self.cards.push(card);
    }

    /// Puts a card at the bottom of the deck.
    pub fn add_bottom(&mut self, card: Card)
        ensures
            final(self).cards@ == seq![card] + old(self).cards@,
            final(self).name == old(self).name,
            final(self).deck_type == old(self).deck_type,
            final(self).commander == old(self).commander,
            final(self).partner == old(self).partner,
            final(self).owner == old(self).owner,
    {
        self.cards.insert(0, card);
        assert(self.cards@ =~= seq![card] + old(self).cards@);
    }

    /// The cards whose name contains `name`, in deck order.
    pub fn search(&self, name: &str) -> (found: Vec<&Card>)
        ensures
            found@.map_values(|c: &Card| *c) == self.cards@.filter(name_matches(name@)),
    {
        let ghost pred = name_matches(name@);
        let mut found: Vec<&Card> = Vec::new();
        let mut i: usize = 0;
        while i < self.cards.len()
            invariant
                pred == name_matches(name@),
                i <= self.cards@.len(),
                found@.map_values(|c: &Card| *c) == self.cards@.take(i as int).filter(pred),
            decreases self.cards@.len() - i,
        {
            let card = &self.cards[i];
            let card_name = card.name.as_str();
            let hit = text_contains(card_name, name);
            proof {
                assert(self.cards@.take(i + 1) =~= self.cards@.take(i as int).push(*card));
                self.cards@.take(i as int).lemma_filter_push(*card, pred);
                assert(hit == pred(*card));
            }
            let ghost before = found@;
            if hit {
                found.push(card);
                assert(found@.map_values(|c: &Card| *c) =~= before.map_values(|c: &Card| *c).push(*card));
            }
            i = i + 1;
        }
        assert(self.cards@.take(self.cards@.len() as int) == self.cards@);
        found
    }
}

/// A card put on top of the deck is the next card drawn, and drawing it
/// leaves the deck as it was.
pub proof fn law_top_card_drawn_next(cards: Seq<Card>, card: Card)
    ensures
        cards.push(card).len() > 0,
        cards.push(card).last() == card,
        cards.push(card).drop_last() == cards,
{
    assert(cards.push(card).drop_last() =~= cards);
}

/// A card put at the bottom of the deck is the last card drawn: drawing the
/// whole deck draws it last, after all the other cards.
pub proof fn law_bottom_card_drawn_last(cards: Seq<Card>, card: Card)
    ensures
        drawn_cards(seq![card] + cards, cards.len() + 1).len() == cards.len() + 1,
        drawn_cards(seq![card] + cards, cards.len() + 1).last() == card,
        drawn_cards(seq![card] + cards, cards.len() + 1).drop_last() == drawn_cards(cards, cards.len()),
{
    let all = seq![card] + cards;
    let d = drawn_cards(all, cards.len() + 1);
    assert(d[d.len() - 1] == all[0]);
    assert(d.drop_last() =~= drawn_cards(cards, cards.len()));
}

/// Drawing several cards draws them from the top down, never more than the
/// deck holds, and what remains is the rest of the deck in order.
pub proof fn law_draw_multiple_from_top(cards: Seq<Card>, count: nat)
    ensures
        drawn_cards(cards, count).len() == if count < cards.len() { count } else { cards.len() },
        forall|i: int| 0 <= i < drawn_cards(cards, count).len()
            ==> #[trigger] drawn_cards(cards, count)[i] == cards[cards.len() - 1 - i],
        cards.take(cards.len() - drawn_cards(cards, count).len()) + drawn_cards(cards, count).reverse() == cards,
{
    let d = drawn_cards(cards, count);
    let rest = cards.take(cards.len() - d.len());
    assert(rest + d.reverse() =~= cards);
}

/// A name that occurs at all is among the names.
proof fn lemma_occurring_name_is_present(names: Seq<Seq<char>>, name: Seq<char>)
    requires
        occurrences(names, name) > 0,
    ensures
        names.contains(name),
    decreases names.len(),
{
    if names.last() == name {
        assert(names[names.len() - 1] == name);
    } else {
        lemma_occurring_name_is_present(names.drop_last(), name);
        let j = choose|j: int| 0 <= j < names.drop_last().len() && names.drop_last()[j] == name;
        assert(names[j] == name);
    }
}

/// Commander and Brawl decks allow a single copy of each card: a card name
/// that occurs `k >= 2` times in such a deck is reported as too many copies,
/// with 1 allowed and `k` found.
pub proof fn law_singleton_formats_allow_one_copy(deck: Deck, name: Seq<char>)
    requires
        deck.deck_type is Commander || deck.deck_type is Brawl,
        occurrences(card_names(deck.cards@), name) >= 2,
    ensures
        deck_issues(deck).contains(
            DeckIssue::TooManyCopies {
                card_name: name,
                max_allowed: 1,
                actual: occurrences(card_names(deck.cards@), name),
            },
        ),
{
    let names = card_names(deck.cards@);
    let k = occurrences(names, name);
    let issue = DeckIssue::TooManyCopies { card_name: name, max_allowed: 1, actual: k };
    lemma_occurring_name_is_present(names, name);
    lemma_first_occurrences_contains(names, name);
    let firsts = first_occurrences(names);
    let pred = |n: Seq<char>| occurrences(names, n) > 1;
    let j = choose|j: int| 0 <= j < firsts.len() && firsts[j] == name;
    firsts.lemma_filter_contains(pred, j);
    let kept = firsts.filter(pred);
    let t = choose|t: int| 0 <= t < kept.len() && kept[t] == name;
    let copies = copy_issues(names, max_copies_allowed(deck.deck_type));
    assert(copies[t] == issue);
    let n = deck.cards@.len();
    let min = min_deck_size(deck.deck_type);
    let size = if n < min {
        seq![DeckIssue::TooFewCards { required: min, actual: n }]
    } else {
        Seq::empty()
    };
    let commander = if deck.deck_type is Commander && deck.commander is None {
        seq![DeckIssue::MissingCommander]
    } else {
        Seq::empty()
    };
    assert(deck_issues(deck) == size + commander + copies);
    assert(deck_issues(deck)[size.len() + commander.len() + t] == issue);
}

/// The copy limit by format: outside Limited, a deck reports too many
/// copies of exactly the card names that occur more often than the format
/// allows (once in Commander and Brawl, four times in every other format),
/// each with the number allowed and the number found.
pub proof fn law_copy_limit_by_format(deck: Deck, name: Seq<char>)
    requires
        !(deck.deck_type is Limited),
    ensures
        ({
            let names = card_names(deck.cards@);
            let max: nat = if deck.deck_type is Commander || deck.deck_type is Brawl { 1 } else { 4 };
            &&& occurrences(names, name) > max ==> deck_issues(deck).contains(
                DeckIssue::TooManyCopies { card_name: name, max_allowed: max, actual: occurrences(names, name) },
            )
            &&& forall|i: int| 0 <= i < deck_issues(deck).len() ==> match #[trigger] deck_issues(deck)[i] {
                DeckIssue::TooManyCopies { card_name, max_allowed, actual } => max_allowed == max && actual
                    == occurrences(names, card_name) && actual > max,
                _ => true,
            }
        }),
{
    let names = card_names(deck.cards@);
    let max: nat = if deck.deck_type is Commander || deck.deck_type is Brawl { 1 } else { 4 };
    assert(max_copies_allowed(deck.deck_type) == max);
    let firsts = first_occurrences(names);
    let pred = |n: Seq<char>| occurrences(names, n) > max;
    let kept = firsts.filter(pred);
    let copies = copy_issues(names, max);
    let n = deck.cards@.len();
    let min = min_deck_size(deck.deck_type);
    let size = if n < min {
        seq![DeckIssue::TooFewCards { required: min, actual: n }]
    } else {
        Seq::empty()
    };
    let commander = if deck.deck_type is Commander && deck.commander is None {
        seq![DeckIssue::MissingCommander]
    } else {
        Seq::empty()
    };
    assert(deck_issues(deck) == size + commander + copies);
    if occurrences(names, name) > max {
        lemma_occurring_name_is_present(names, name);
        lemma_first_occurrences_contains(names, name);
        let j = choose|j: int| 0 <= j < firsts.len() && firsts[j] == name;
        firsts.lemma_filter_contains(pred, j);
        let t = choose|t: int| 0 <= t < kept.len() && kept[t] == name;
        assert(deck_issues(deck)[size.len() + commander.len() + t] == copies[t]);
    }
    assert forall|i: int| 0 <= i < deck_issues(deck).len() implies match #[trigger] deck_issues(deck)[i] {
        DeckIssue::TooManyCopies { card_name, max_allowed, actual } => max_allowed == max && actual == occurrences(
            names,
            card_name,
        ) && actual > max,
        _ => true,
    } by {
        let off = size.len() + commander.len();
        if i >= off {
            firsts.lemma_filter_pred(pred, i - off);
            assert(deck_issues(deck)[i] == copies[i - off]);
        }
    }
}

} // verus!
