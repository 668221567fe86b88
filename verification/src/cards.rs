//! The card model that the rules read: names, types, mana costs, creature
//! statistics and colours.

use vstd::prelude::*;

verus! {

/// Card type flags (a bit set).
#[derive(Clone, Copy, PartialEq, Eq, Structural, Debug)]
pub struct CardTypes {
    pub bits: u32,
}

impl CardTypes {
    /// No type.
    pub fn none() -> (t: CardTypes)
        ensures t.bits == 0,
    {
        CardTypes { bits: 0 }
    }

    /// The creature type flag.
    pub fn creature() -> (t: CardTypes)
        ensures t.bits == 1,
    {
        CardTypes { bits: 1 }
    }

    /// The instant type flag.
    pub fn instant() -> (t: CardTypes)
        ensures t.bits == 2,
    {
        CardTypes { bits: 2 }
    }

    /// The sorcery type flag.
    pub fn sorcery() -> (t: CardTypes)
        ensures t.bits == 4,
    {
        CardTypes { bits: 4 }
    }

    /// The land type flag.
    pub fn land() -> (t: CardTypes)
        ensures t.bits == 8,
    {
        CardTypes { bits: 8 }
    }

    /// The legendary supertype flag.
    pub fn legendary() -> (t: CardTypes)
        ensures t.bits == 16,
    {
        CardTypes { bits: 16 }
    }

    /// Every flag of `other` is set in `self`.
    pub open spec fn has(self, other: CardTypes) -> bool {
        self.bits & other.bits == other.bits
    }

    /// Whether every flag of `other` is set in `self`.
    pub fn contains(&self, other: CardTypes) -> (b: bool)
        ensures
            b == self.has(other),
    {
        self.bits & other.bits == other.bits
    }

    /// The union of two flag sets.
    pub fn union(self, other: CardTypes) -> (t: CardTypes)
        ensures
            t.bits == self.bits | other.bits,
    {
        CardTypes { bits: self.bits | other.bits }
    }
}

/// The five colours of mana.
#[derive(Clone, Copy, PartialEq, Eq, Structural, Debug, Hash)]
pub enum ManaColor {
    White,
    Blue,
    Black,
    Red,
    Green,
}

/// A set of colours.
#[derive(Clone, Copy, PartialEq, Eq, Structural, Debug)]
pub struct ColorSet {
    pub white: bool,
    pub blue: bool,
    pub black: bool,
    pub red: bool,
    pub green: bool,
}

impl ColorSet {
    /// The colours in the set.
    pub open spec fn view(&self) -> Set<ManaColor> {
        Set::new(
            |c: ManaColor|
                match c {
                    ManaColor::White => self.white,
                    ManaColor::Blue => self.blue,
                    ManaColor::Black => self.black,
                    ManaColor::Red => self.red,
                    ManaColor::Green => self.green,
                },
        )
    }

    /// The empty set of colours.
    pub fn empty() -> (s: ColorSet)
        ensures
            s@ == Set::<ManaColor>::empty(),
    {
        let s = ColorSet { white: false, blue: false, black: false, red: false, green: false };
        assert(s@ =~= Set::<ManaColor>::empty());
        s
    }

    /// Adds a colour.
    pub fn insert(&mut self, c: ManaColor)
        ensures
            final(self)@ == old(self)@.insert(c),
    {
        match c {
            ManaColor::White => self.white = true,
            ManaColor::Blue => self.blue = true,
            ManaColor::Black => self.black = true,
            ManaColor::Red => self.red = true,
            ManaColor::Green => self.green = true,
        }
        assert(self@ =~= old(self)@.insert(c));
    }

    /// Whether the set holds `c`.
    pub fn contains(&self, c: ManaColor) -> (b: bool)
        ensures
            b == self@.contains(c),
    {
        match c {
            ManaColor::White => self.white,
            ManaColor::Blue => self.blue,
            ManaColor::Black => self.black,
            ManaColor::Red => self.red,
            ManaColor::Green => self.green,
        }
    }

    /// Adds every colour of `other`.
    pub fn extend(&mut self, other: &ColorSet)
        ensures
            final(self)@ == old(self)@.union(other@),
    {
        self.white = self.white || other.white;
        self.blue = self.blue || other.blue;
        self.black = self.black || other.black;
        self.red = self.red || other.red;
        self.green = self.green || other.green;
        assert(self@ =~= old(self)@.union(other@));
    }
}

/// A mana cost or a pool of mana.
#[derive(Clone, Copy, PartialEq, Eq, Structural, Debug)]
pub struct Mana {
    pub colorless: u64,
    pub white: u64,
    pub blue: u64,
    pub black: u64,
    pub red: u64,
    pub green: u64,
}

impl Mana {
    /// No mana.
    pub fn zero() -> (m: Mana)
        ensures
            m.colorless == 0 && m.white == 0 && m.blue == 0 && m.black == 0 && m.red == 0
                && m.green == 0,
    {
        Mana { colorless: 0, white: 0, blue: 0, black: 0, red: 0, green: 0 }
    }
}

/// Creature type flags (a bit set).
#[derive(Clone, Copy, PartialEq, Eq, Structural, Debug)]
pub struct CreatureType {
    pub bits: u64,
}

/// Statistics of a creature card.
#[derive(Clone, Copy, PartialEq, Eq, Structural, Debug)]
pub struct CreatureCard {
    pub power: i32,
    pub toughness: i32,
    pub creature_type: CreatureType,
}

/// Type-specific details of a card.
#[derive(Clone, Copy, PartialEq, Eq, Structural, Debug)]
pub enum CardDetails {
    Creature(CreatureCard),
    Other,
}

/// A card.
#[derive(Debug)]
pub struct Card {
    pub name: String,
    pub cost: Mana,
    pub types: CardTypes,
    pub card_details: CardDetails,
    pub rules_text: String,
}

impl Clone for Card {
    fn clone(&self) -> (c: Self)
        ensures
            c == *self,
    {
        Card {
            name: self.name.clone(),
            cost: self.cost,
            types: self.types,
            card_details: self.card_details,
            rules_text: self.rules_text.clone(),
        }
    }
}

impl Card {
    /// A card with the given name, cost, types, details and rules text.
    pub fn new(name: String, cost: Mana, types: CardTypes, card_details: CardDetails, rules_text: String) -> (c: Card)
        ensures
            c.name == name,
            c.cost == cost,
            c.types == types,
            c.card_details == card_details,
            c.rules_text == rules_text,
    {
        Card { name, cost, types, card_details, rules_text }
    }
}

} // verus!
