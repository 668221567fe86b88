use rummage::cards::{Card, CardDetails, CardTypes, CreatureCard, CreatureType, Mana};
use rummage::deck::builder::DeckBuilder;
use rummage::deck::types::{Deck, DeckType, DeckValidationError, PlayerDeck};
use rummage::deck::{get_player_shuffled_deck, get_shuffled_deck, DeckRegistry};
use rummage::entity::EntityId;

fn card(name: &str) -> Card {
    Card::new(
        name.to_string(),
        Mana::zero(),
        CardTypes::creature(),
        CardDetails::Creature(CreatureCard { power: 2, toughness: 2, creature_type: CreatureType { bits: 0 } }),
        String::new(),
    )
}

fn names(cards: &[Card]) -> Vec<String> {
    cards.iter().map(|c| c.name.clone()).collect()
}

#[test]
fn top_card_is_drawn_next() {
    let mut deck = Deck::new("D".to_string(), DeckType::Standard, vec![card("a"), card("b")]);
    deck.add_top(card("top"));
    let drawn = deck.draw().expect("a card");
    assert_eq!(drawn.name, "top");
    assert_eq!(names(&deck.cards), vec!["a".to_string(), "b".to_string()]);
}

#[test]
fn bottom_card_is_drawn_last() {
    let mut deck = Deck::new("D".to_string(), DeckType::Standard, vec![card("a"), card("b")]);
    deck.add_bottom(card("bottom"));
    let drawn = deck.draw_multiple(3);
    assert_eq!(names(&drawn), vec!["b".to_string(), "a".to_string(), "bottom".to_string()]);
    assert!(deck.draw().is_none());
}

#[test]
fn draw_multiple_stops_when_empty() {
    let mut deck = Deck::new("D".to_string(), DeckType::Standard, vec![card("a"), card("b")]);
    let drawn = deck.draw_multiple(5);
    assert_eq!(drawn.len(), 2);
    assert_eq!(deck.card_count(), 0);
}

#[test]
fn player_deck_draws_from_top() {
    let mut pd = PlayerDeck::new(Deck::new("D".to_string(), DeckType::Standard, vec![card("a"), card("b"), card("c")]));
    assert_eq!(pd.draw().unwrap().name, "c");
    let two = pd.draw_multiple(2);
    assert_eq!(names(&two), vec!["b".to_string(), "a".to_string()]);
}

#[test]
fn commander_deck_too_small_and_missing_commander() {
    let deck = Deck::new("C".to_string(), DeckType::Commander, vec![card("a"), card("a")]);
    let errors = deck.validate().unwrap_err();
    assert!(errors.iter().any(|e| matches!(e, DeckValidationError::TooFewCards { required: 100, actual: 2 })));
    assert!(errors.iter().any(|e| matches!(e, DeckValidationError::MissingCommander)));
    assert!(errors.iter().any(|e| matches!(e, DeckValidationError::TooManyCopies { max_allowed: 1, actual: 2, .. })));
}

#[test]
fn standard_deck_allows_four_copies() {
    let mut cards = Vec::new();
    for i in 0..56 {
        cards.push(card(&format!("c{}", i)));
    }
    for _ in 0..4 {
        cards.push(card("bolt"));
    }
    let deck = Deck::new("S".to_string(), DeckType::Standard, cards);
    assert!(deck.validate().is_ok());
}

#[test]
fn standard_deck_rejects_five_copies() {
    let mut cards = Vec::new();
    for i in 0..55 {
        cards.push(card(&format!("c{}", i)));
    }
    for _ in 0..5 {
        cards.push(card("bolt"));
    }
    let deck = Deck::new("S".to_string(), DeckType::Standard, cards);
    let errors = deck.validate().unwrap_err();
    assert_eq!(errors.len(), 1);
    match &errors[0] {
        DeckValidationError::TooManyCopies { card_name, max_allowed, actual } => {
            assert_eq!(card_name, "bolt");
            assert_eq!(*max_allowed, 4);
            assert_eq!(*actual, 5);
        }
        other => panic!("unexpected error {:?}", other),
    }
}

#[test]
fn limited_deck_ignores_copies() {
    let mut cards = Vec::new();
    for _ in 0..40 {
        cards.push(card("same"));
    }
    let deck = Deck::new("L".to_string(), DeckType::Limited, cards);
    assert!(deck.validate().is_ok());
}

#[test]
fn custom_deck_has_no_minimum() {
    let deck = Deck::new("X".to_string(), DeckType::Custom("house".to_string()), vec![]);
    assert!(deck.validate().is_ok());
}

#[test]
fn shuffle_keeps_the_cards() {
    let mut cards = Vec::new();
    for i in 0..30 {
        cards.push(card(&format!("c{}", i)));
    }
    let mut deck = Deck::new("D".to_string(), DeckType::Standard, cards);
    let mut before = names(&deck.cards);
    deck.shuffle();
    let mut after = names(&deck.cards);
    before.sort();
    after.sort();
    assert_eq!(before, after);
}

#[test]
fn search_finds_names_containing_text() {
    let deck = Deck::new("D".to_string(), DeckType::Standard, vec![card("Lightning Bolt"), card("Bolt Bend"), card("Giant")]);
    let found = deck.search("Bolt");
    assert_eq!(found.len(), 2);
    assert_eq!(found[0].name, "Lightning Bolt");
}

#[test]
fn builder_defaults_name_and_type() {
    let deck = DeckBuilder::new().add_card(card("a")).add_copies(card("b"), 2).build().unwrap();
    assert_eq!(deck.name, "Untitled Deck");
    assert!(matches!(deck.deck_type, DeckType::Standard));
    assert_eq!(names(&deck.cards), vec!["a".to_string(), "b".to_string(), "b".to_string()]);
}

#[test]
fn builder_keeps_commander_and_owner() {
    let deck = DeckBuilder::new()
        .with_name("Mine")
        .with_type(DeckType::Commander)
        .with_commander(EntityId(7))
        .with_owner(EntityId(1))
        .build_shuffled()
        .unwrap();
    assert_eq!(deck.name, "Mine");
    assert_eq!(deck.commander, Some(EntityId(7)));
    assert_eq!(deck.owner, Some(EntityId(1)));
}

#[test]
fn registry_replaces_same_name() {
    let mut reg = DeckRegistry::default();
    reg.register_deck("a", Deck::new("one".to_string(), DeckType::Standard, vec![]));
    reg.register_deck("a", Deck::new("two".to_string(), DeckType::Standard, vec![]));
    assert_eq!(reg.get_all_decks().len(), 1);
    assert_eq!(reg.get_deck("a").unwrap().name, "two");
    assert!(reg.get_deck("b").is_none());
}

#[test]
fn player_deck_default_name_counts_from_one() {
    let deck = get_player_shuffled_deck(EntityId(3), 1, None, vec![card("a")]);
    assert_eq!(deck.name, "Player 2 Deck");
    let named = get_player_shuffled_deck(EntityId(3), 0, Some("Mine"), vec![]);
    assert_eq!(named.name, "Mine");
}

#[test]
fn example_deck_holds_the_cards() {
    let deck = get_shuffled_deck(EntityId(1), vec![card("a"), card("b")]);
    assert_eq!(deck.name, "Example Deck");
    let mut n = names(&deck.cards);
    n.sort();
    assert_eq!(n, vec!["a".to_string(), "b".to_string()]);
    assert!(deck.owner.is_none());
}

#[test]
fn builder_adds_card_lists_and_partner() {
    let deck = DeckBuilder::new()
        .add_card(card("a"))
        .with_cards(vec![card("b"), card("c")])
        .with_partner(EntityId(8))
        .build()
        .unwrap();
    assert_eq!(names(&deck.cards), vec!["a".to_string(), "b".to_string(), "c".to_string()]);
    assert_eq!(deck.partner, Some(EntityId(8)));
    assert_eq!(deck.card_count(), 3);
}
