//! Step-by-step construction of decks.

use vstd::prelude::*;
use vstd::string::*;
use crate::cards::Card;
use crate::deck::types::{Deck, DeckType};
use crate::entity::EntityId;

verus! {

/// Builder for creating decks.
pub struct DeckBuilder {
    pub name: Option<String>,
    pub deck_type: Option<DeckType>,
    pub cards: Vec<Card>,
    pub commander: Option<EntityId>,
    pub partner: Option<EntityId>,
    pub owner: Option<EntityId>,
}

impl Default for DeckBuilder {
    fn default() -> (b: Self)
        ensures
            b.name is None,
            b.deck_type is None,
            b.cards@.len() == 0,
            b.commander is None,
            b.partner is None,
            b.owner is None,
    {
        DeckBuilder::new()
    }
}

impl DeckBuilder {
    /// An empty deck builder.
    pub fn new() -> (b: Self)
        ensures
            b.name is None,
            b.deck_type is None,
            b.cards@.len() == 0,
            b.commander is None,
            b.partner is None,
            b.owner is None,
    {
        DeckBuilder {
            name: None,
            deck_type: None,
            cards: Vec::new(),
            commander: None,
            partner: None,
            owner: None,
        }
    }

    /// Sets the name of the deck.
    pub fn with_name(self, name: &str) -> (b: Self)
        ensures
            b.name matches Some(n) && n@ == name@,
            b.deck_type == self.deck_type,
            b.cards@ == self.cards@,
            b.commander == self.commander,
            b.partner == self.partner,
            b.owner == self.owner,
    {
        let mut b = self;
        b.name = Some(String::from_str(name));
        b
    }

    /// Sets the format of the deck.
    pub fn with_type(self, deck_type: DeckType) -> (b: Self)
        ensures
            b.deck_type == Some(deck_type),
            b.name == self.name,
            b.cards@ == self.cards@,
            b.commander == self.commander,
            b.partner == self.partner,
            b.owner == self.owner,
    {
        let mut b = self;
        b.deck_type = Some(deck_type);
        b
    }

    /// Adds several cards after those already added.
    pub fn with_cards(self, cards: Vec<Card>) -> (b: Self)
        ensures
            b.cards@ == self.cards@ + cards@,
            b.name == self.name,
            b.deck_type == self.deck_type,
            b.commander == self.commander,
            b.partner == self.partner,
            b.owner == self.owner,
    {
        let mut b = self;
        let mut more = cards;
        b.cards.append(&mut more);
        b
    }

    /// Adds one card.
    pub fn add_card(self, card: Card) -> (b: Self)
        ensures
            b.cards@ == self.cards@.push(card),
            b.name == self.name,
            b.deck_type == self.deck_type,
            b.commander == self.commander,
            b.partner == self.partner,
            b.owner == self.owner,
    {
        let mut b = self;
        b.cards.push(card);
        b
    }

    /// Adds `count` copies of a card.
    pub fn add_copies(self, card: Card, count: usize) -> (b: Self)
        ensures
            b.cards@ == self.cards@ + Seq::new(count as nat, |i: int| card),
            b.name == self.name,
            b.deck_type == self.deck_type,
            b.commander == self.commander,
            b.partner == self.partner,
            b.owner == self.owner,
    {
        let mut b = self;
        let mut i: usize = 0;
        while i < count
            invariant
                i <= count,
                b.cards@ == self.cards@ + Seq::new(i as nat, |k: int| card),
                b.name == self.name,
                b.deck_type == self.deck_type,
                b.commander == self.commander,
                b.partner == self.partner,
                b.owner == self.owner,
            decreases count - i,
        {
            b.cards.push(card.clone());
            i = i + 1;
            assert(b.cards@ =~= self.cards@ + Seq::new(i as nat, |k: int| card));
        }
        b
    }

    /// Sets the commander.
    pub fn with_commander(self, commander: EntityId) -> (b: Self)
        ensures
            b.commander == Some(commander),
            b.name == self.name,
            b.deck_type == self.deck_type,
            b.cards@ == self.cards@,
            b.partner == self.partner,
            b.owner == self.owner,
    {
        let mut b = self;
        b.commander = Some(commander);
        b
    }

    /// Sets the partner commander.
    pub fn with_partner(self, partner: EntityId) -> (b: Self)
        ensures
            b.partner == Some(partner),
            b.name == self.name,
            b.deck_type == self.deck_type,
            b.cards@ == self.cards@,
            b.commander == self.commander,
            b.owner == self.owner,
    {
        let mut b = self;
        b.partner = Some(partner);
        b
    }

    /// Sets the owner.
    pub fn with_owner(self, owner: EntityId) -> (b: Self)
        ensures
            b.owner == Some(owner),
            b.name == self.name,
            b.deck_type == self.deck_type,
            b.cards@ == self.cards@,
            b.commander == self.commander,
            b.partner == self.partner,
    {
        let mut b = self;
        b.owner = Some(owner);
        b
    }

    /// Builds the deck. A missing name becomes "Untitled Deck" and a missing
    /// format becomes Standard. Building never fails.
    pub fn build(self) -> (r: Result<Deck, String>)
        ensures
            r matches Ok(d) && {
                &&& d.name@ == (match self.name {
                    Some(n) => n@,
                    None => "Untitled Deck"@,
                })
                &&& d.deck_type == (match self.deck_type {
                    Some(t) => t,
                    None => DeckType::Standard,
                })
                &&& d.cards@ == self.cards@
                &&& d.commander == self.commander
                &&& d.partner == self.partner
                &&& d.owner == self.owner
            },
    {
        let name = match self.name {
            Some(n) => n,
            None => String::from_str("Untitled Deck"),
        };
        let deck_type = match self.deck_type {
            Some(t) => t,
            None => DeckType::Standard,
        };
        let mut deck = Deck::new(name, deck_type, self.cards);
        if let Some(commander) = self.commander {
            deck.set_commander(commander);
        }
        if let Some(partner) = self.partner {
            deck.set_partner(partner);
        }
        if let Some(owner) = self.owner {
            deck.set_owner(owner);
        }
        Ok(deck)
    }

    /// Builds the deck and shuffles it.
    pub fn build_shuffled(self) -> (r: Result<Deck, String>)
        ensures
            r matches Ok(d) && {
                &&& d.name@ == (match self.name {
                    Some(n) => n@,
                    None => "Untitled Deck"@,
                })
                &&& d.deck_type == (match self.deck_type {
                    Some(t) => t,
                    None => DeckType::Standard,
                })
                &&& d.cards@.to_multiset() == self.cards@.to_multiset()
                &&& d.commander == self.commander
                &&& d.partner == self.partner
                &&& d.owner == self.owner
            },
    {
        let mut deck = match self.build() {
            Ok(d) => d,
            Err(e) => {
                return Err(e);
            },
        };
        deck.shuffle();
        Ok(deck)
    }
}

} // verus!
