//! Decks, deck building and the registry of named decks.

pub mod types;
pub mod builder;

use vstd::prelude::*;
use vstd::string::*;
use crate::cards::Card;
use crate::entity::EntityId;
use crate::text::{decimal_string, decimal_text};
use types::{Deck, DeckType, PlayerDeck};

verus! {

/// Named decks available to the game. Each name occurs at most once.
pub struct DeckRegistry {
    pub decks: Vec<(String, Deck)>,
}

/// No name occurs twice among the registered decks.
pub open spec fn deck_names_unique(s: Seq<(String, Deck)>) -> bool {
    forall|i: int, j: int| 0 <= i < s.len() && 0 <= j < s.len() && i != j ==> #[trigger] s[i].0@ != #[trigger] s[j].0@
}

impl Default for DeckRegistry {
    fn default() -> (r: Self)
        ensures
            r.decks@.len() == 0,
    {
        DeckRegistry { decks: Vec::new() }
    }
}

impl DeckRegistry {
    /// The registry holds each name once.
    pub open spec fn wf(&self) -> bool {
        deck_names_unique(self.decks@)
    }

    /// Registers `deck` under `name`, replacing a deck of the same name.
    pub fn register_deck(&mut self, name: &str, deck: Deck)
        requires
            old(self).wf(),
        ensures
            final(self).wf(),
            (exists|i: int| 0 <= i < old(self).decks@.len() && #[trigger] old(self).decks@[i].0@ == name@)
                ==> final(self).decks@.len() == old(self).decks@.len() && (forall|i: int|
                0 <= i < old(self).decks@.len() ==> if old(self).decks@[i].0@ == name@ {
                    #[trigger] final(self).decks@[i].0@ == name@ && final(self).decks@[i].1 == deck
                } else {
                    final(self).decks@[i] == old(self).decks@[i]
                }),
            !(exists|i: int| 0 <= i < old(self).decks@.len() && #[trigger] old(self).decks@[i].0@ == name@)
                ==> final(self).decks@.len() == old(self).decks@.len() + 1
                && final(self).decks@.take(old(self).decks@.len() as int) == old(self).decks@
                && final(self).decks@.last().0@ == name@ && final(self).decks@.last().1 == deck,
    {
        let key = String::from_str(name);
        let mut i: usize = 0;
        while i < self.decks.len()
            invariant
                key@ == name@,
                deck_names_unique(old(self).decks@),
                i <= self.decks@.len(),
                self.decks@ == old(self).decks@,
                forall|j: int| 0 <= j < i ==> self.decks@[j].0@ != name@,
            decreases self.decks@.len() - i,
        {
            if self.decks[i].0 == key {
                self.decks.set(i, (key, deck));
                proof {
                    assert forall|a: int, b: int|
                        0 <= a < self.decks@.len() && 0 <= b < self.decks@.len() && a != b implies
                        self.decks@[a].0@ != self.decks@[b].0@ by {
                        assert(old(self).decks@[a].0@ != old(self).decks@[b].0@);
                    }
                    assert forall|j: int| 0 <= j < old(self).decks@.len() && old(self).decks@[j].0@ == name@ implies j == i by {
                        if j != i {
                            assert(old(self).decks@[j].0@ != old(self).decks@[i as int].0@);
                        }
                    }
                }
                return;
            }
            i = i + 1;
        }
        self.decks.push((key, deck));
        proof {
            assert forall|a: int, b: int|
                0 <= a < self.decks@.len() && 0 <= b < self.decks@.len() && a != b implies
                self.decks@[a].0@ != self.decks@[b].0@ by {
                if a < old(self).decks@.len() && b < old(self).decks@.len() {
                    assert(old(self).decks@[a].0@ != old(self).decks@[b].0@);
                }
            }
            assert(self.decks@.take(old(self).decks@.len() as int) =~= old(self).decks@);
        }
    }

    /// The deck registered under `name`.
    pub fn get_deck(&self, name: &str) -> (r: Option<&Deck>)
        requires
            self.wf(),
        ensures
            match r {
                Some(d) => exists|i: int| 0 <= i < self.decks@.len() && #[trigger] self.decks@[i].0@ == name@
                    && self.decks@[i].1 == *d,
                None => forall|i: int| 0 <= i < self.decks@.len() ==> #[trigger] self.decks@[i].0@ != name@,
            },
    {
        let key = String::from_str(name);
        let mut i: usize = 0;
        while i < self.decks.len()
            invariant
                key@ == name@,
                i <= self.decks@.len(),
                forall|j: int| 0 <= j < i ==> self.decks@[j].0@ != name@,
            decreases self.decks@.len() - i,
        {
            if self.decks[i].0 == key {
                return Some(&self.decks[i].1);
            }
            i = i + 1;
        }
        None
    }

    /// Every registered name with its deck, in registration order.
    pub fn get_all_decks(&self) -> (r: Vec<(&String, &Deck)>)
        ensures
            r@.len() == self.decks@.len(),
            forall|i: int| 0 <= i < r@.len() ==> *(#[trigger] r@[i]).0 == self.decks@[i].0 && *r@[i].1 == self.decks@[i].1,
    {
        let mut r: Vec<(&String, &Deck)> = Vec::new();
        let mut i: usize = 0;
        while i < self.decks.len()
            invariant
                i <= self.decks@.len(),
                r@.len() == i,
                forall|j: int| 0 <= j < i ==> *(#[trigger] r@[j]).0 == self.decks@[j].0 && *r@[j].1 == self.decks@[j].1,
            decreases self.decks@.len() - i,
        {
            let entry = &self.decks[i];
            r.push((&entry.0, &entry.1));
            i = i + 1;
        }
        r
    }
}

/// Shuffles every player's deck independently.
pub fn shuffle_all_player_decks(player_decks: &mut Vec<PlayerDeck>)
    ensures
        final(player_decks)@.len() == old(player_decks)@.len(),
        forall|i: int| 0 <= i < old(player_decks)@.len() ==> {
            let before = #[trigger] old(player_decks)@[i].deck;
            let after = final(player_decks)@[i].deck;
            &&& after.cards@.to_multiset() == before.cards@.to_multiset()
            &&& after.name == before.name
            &&& after.deck_type == before.deck_type
            &&& after.commander == before.commander
            &&& after.partner == before.partner
            &&& after.owner == before.owner
        },
{
    let mut i: usize = 0;
    while i < player_decks.len()
        invariant
            i <= player_decks@.len(),
            player_decks@.len() == old(player_decks)@.len(),
            forall|j: int| i <= j < player_decks@.len() ==> #[trigger] player_decks@[j] == old(player_decks)@[j],
            forall|j: int| 0 <= j < i ==> {
                let before = #[trigger] old(player_decks)@[j].deck;
                let after = player_decks@[j].deck;
                &&& after.cards@.to_multiset() == before.cards@.to_multiset()
                &&& after.name == before.name
                &&& after.deck_type == before.deck_type
                &&& after.commander == before.commander
                &&& after.partner == before.partner
                &&& after.owner == before.owner
            },
        decreases player_decks@.len() - i,
    {
        player_decks[i].deck.shuffle();
        i = i + 1;
    }
}

/// A shuffled deck named "Example Deck" in the Standard format holding
/// `cards`. The owner is not recorded on the deck.
pub fn get_shuffled_deck(owner: EntityId, cards: Vec<Card>) -> (d: Deck)
    ensures
        d.name@ == "Example Deck"@,
        d.deck_type == DeckType::Standard,
        d.cards@.to_multiset() == cards@.to_multiset(),
        d.commander is None,
        d.partner is None,
        d.owner is None,
{
    let mut deck = Deck::new(String::from_str("Example Deck"), DeckType::Standard, cards);
    deck.shuffle();
    deck
}

/// The default deck name of the player at `player_index` (counting from 0):
/// "Player N Deck" with N = `player_index + 1`.
pub open spec fn default_deck_name(player_index: nat) -> Seq<char> {
    "Player "@ + decimal_text(player_index + 1) + " Deck"@
}

/// A shuffled Standard deck of `cards` for the player at `player_index`,
/// named `deck_name` or, without one, "Player N Deck" with N =
/// `player_index + 1`. The owner is not recorded on the deck.
pub fn get_player_shuffled_deck(
    owner: EntityId,
    player_index: usize,
    deck_name: Option<&str>,
    cards: Vec<Card>,
) -> (d: Deck)
    requires
        player_index < usize::MAX,
    ensures
        d.name@ == (match deck_name {
            Some(n) => n@,
            None => default_deck_name(player_index as nat),
        }),
        d.deck_type == DeckType::Standard,
        d.cards@.to_multiset() == cards@.to_multiset(),
        d.commander is None,
        d.partner is None,
        d.owner is None,
{
    let name = match deck_name {
        Some(n) => String::from_str(n),
        None => {
            let mut s = String::from_str("Player ");
            let number = decimal_string(player_index + 1);
            s.append(number.as_str());
            s.append(" Deck");
            s
        },
    };
    let mut deck = Deck::new(name, DeckType::Standard, cards);
    deck.shuffle();
    deck
}

} // verus!
