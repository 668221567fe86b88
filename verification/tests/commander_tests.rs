use rummage::cards::{Card, CardDetails, CardTypes, ColorSet, CreatureCard, CreatureType, Mana, ManaColor};
use rummage::commander::{
    calculate_commander_cost, check_commander_damage_loss, handle_commander_zone_change, process_commander_zone_choices,
    record_commander_damage, setup_commander, validate_commander_deck, CombatDamageEvent, CommandZone, CommandZoneManager,
    Commander, CommanderRules, CommanderZoneChoiceEvent, CommanderZoneLocation, EliminationReason, PlayerEliminatedEvent,
    COMMANDER_DAMAGE_THRESHOLD, STANDARD_PLAYER_COUNT, STARTING_LIFE,
};
use rummage::entity::{EntityId, EntityMap};
use rummage::game::{Zone, ZoneChangeEvent};

fn commander_of(owner: u64) -> Commander {
    Commander {
        owner: EntityId(owner),
        cast_count: 0,
        damage_dealt: vec![],
        color_identity: ColorSet::empty(),
        is_partner: false,
        is_background: false,
        dealt_combat_damage_this_turn: vec![],
    }
}

fn hit(source: u64, target: u64, damage: u32) -> CombatDamageEvent {
    CombatDamageEvent {
        source: EntityId(source),
        target: EntityId(target),
        damage,
        is_combat_damage: true,
        source_is_commander: true,
    }
}

fn card(types: CardTypes, cost: Mana, text: &str) -> Card {
    Card::new(
        "card".to_string(),
        cost,
        types,
        CardDetails::Creature(CreatureCard { power: 2, toughness: 2, creature_type: CreatureType { bits: 0 } }),
        text.to_string(),
    )
}

#[test]
fn constants_of_the_format() {
    assert_eq!(COMMANDER_DAMAGE_THRESHOLD, 21);
    assert_eq!(STANDARD_PLAYER_COUNT, 4);
    assert_eq!(STARTING_LIFE, 40);
}

#[test]
fn tax_is_two_per_cast() {
    assert_eq!(CommanderRules::calculate_tax(0), 0);
    assert_eq!(CommanderRules::calculate_tax(1), 2);
    assert_eq!(CommanderRules::calculate_tax(3), 6);
    assert_eq!(CommanderRules::calculate_tax(u32::MAX), 2 * u32::MAX as u64);
}

#[test]
fn commander_cost_adds_tax_to_generic_part() {
    let manager = CommandZoneManager::builder()
        .add_commander(EntityId(1), EntityId(100))
        .set_transition_count(EntityId(100), 2)
        .build();
    let base = Mana { colorless: 3, white: 1, blue: 0, black: 0, red: 0, green: 1 };
    let cost = calculate_commander_cost(EntityId(100), base, &manager);
    assert_eq!(cost, Mana { colorless: 7, ..base });
    let other = calculate_commander_cost(EntityId(200), base, &manager);
    assert_eq!(other, base);
}

#[test]
fn each_cast_raises_the_tax_by_two() {
    let mut manager = CommandZoneManager::builder().add_commander(EntityId(1), EntityId(100)).build();
    let base = Mana { colorless: 2, ..Mana::zero() };
    let before = calculate_commander_cost(EntityId(100), base, &manager).colorless;
    manager.update_commander_zone(EntityId(100), CommanderZoneLocation::Battlefield);
    let after = calculate_commander_cost(EntityId(100), base, &manager).colorless;
    assert_eq!(after, before + 2);
    manager.update_commander_zone(EntityId(100), CommanderZoneLocation::Graveyard);
    assert_eq!(calculate_commander_cost(EntityId(100), base, &manager).colorless, after);
    assert_eq!(manager.get_commander_zone(EntityId(100)), CommanderZoneLocation::Graveyard);
}

#[test]
fn elimination_at_exactly_twenty_one() {
    let mut c = commander_of(7);
    c.damage_dealt = vec![(EntityId(1), 20), (EntityId(2), 21)];
    assert!(!CommanderRules::check_commander_damage_elimination(&c, EntityId(1)));
    assert!(CommanderRules::check_commander_damage_elimination(&c, EntityId(2)));
    assert!(!CommanderRules::check_commander_damage_elimination(&c, EntityId(3)));
}

#[test]
fn legendary_creature_or_text_can_be_commander() {
    let legend = card(CardTypes::legendary().union(CardTypes::creature()), Mana::zero(), "");
    assert!(CommanderRules::can_be_commander(&legend));
    let plain = card(CardTypes::creature(), Mana::zero(), "Flying");
    assert!(!CommanderRules::can_be_commander(&plain));
    let texted = card(CardTypes::none(), Mana::zero(), "This card CAN BE YOUR COMMANDER.");
    assert!(CommanderRules::can_be_commander(&texted));
    let legendary_only = card(CardTypes::legendary(), Mana::zero(), "");
    assert!(!CommanderRules::can_be_commander(&legendary_only));
}

#[test]
fn color_identity_from_cost() {
    let c = card(CardTypes::creature(), Mana { colorless: 2, white: 1, blue: 0, black: 0, red: 2, green: 0 }, "");
    let colors = CommanderRules::extract_color_identity(&c);
    assert!(colors.contains(ManaColor::White));
    assert!(colors.contains(ManaColor::Red));
    assert!(!colors.contains(ManaColor::Blue));
    assert!(!colors.contains(ManaColor::Black));
    assert!(!colors.contains(ManaColor::Green));
}

#[test]
fn color_identity_includes_mana_symbols_in_rules_text() {
    let c = card(
        CardTypes::creature(),
        Mana { colorless: 1, white: 0, blue: 0, black: 0, red: 0, green: 1 },
        "{T}: Add {W}. {2}{U}: Draw a card.",
    );
    let colors = CommanderRules::extract_color_identity(&c);
    assert!(colors.contains(ManaColor::White));
    assert!(colors.contains(ManaColor::Blue));
    assert!(colors.contains(ManaColor::Green));
    assert!(!colors.contains(ManaColor::Black));
    assert!(!colors.contains(ManaColor::Red));
}

#[test]
fn recorded_damage_accumulates_per_player() {
    let mut commanders = EntityMap::new();
    commanders.insert(EntityId(100), commander_of(1));
    commanders.insert(EntityId(200), commander_of(2));
    let mut not_commander = hit(100, 3, 50);
    not_commander.source_is_commander = false;
    let mut not_combat = hit(100, 3, 50);
    not_combat.is_combat_damage = false;
    let events = vec![hit(100, 3, 10), hit(100, 4, 5), hit(100, 3, 11), not_commander, not_combat, hit(100, 3, 0), hit(300, 3, 9)];
    record_commander_damage(&mut commanders, &events);
    let c = commanders.get(EntityId(100)).unwrap();
    assert_eq!(c.damage_dealt, vec![(EntityId(3), 21), (EntityId(4), 5)]);
    assert_eq!(c.dealt_combat_damage_this_turn, vec![EntityId(3), EntityId(4)]);
    assert!(commanders.get(EntityId(200)).unwrap().damage_dealt.is_empty());
    assert!(CommanderRules::check_commander_damage_elimination(c, EntityId(3)));
}

#[test]
fn damage_loss_names_the_first_lethal_commander() {
    let mut a = commander_of(1);
    a.damage_dealt = vec![(EntityId(3), 15)];
    let mut b = commander_of(2);
    b.damage_dealt = vec![(EntityId(3), 22), (EntityId(4), 21)];
    let mut c = commander_of(5);
    c.damage_dealt = vec![(EntityId(3), 30)];
    let out = check_commander_damage_loss(
        &vec![(EntityId(100), a), (EntityId(200), b), (EntityId(300), c)],
        &vec![EntityId(3), EntityId(4), EntityId(6)],
    );
    assert_eq!(
        out,
        vec![
            PlayerEliminatedEvent { player: EntityId(3), reason: EliminationReason::CommanderDamage(EntityId(200)) },
            PlayerEliminatedEvent { player: EntityId(4), reason: EliminationReason::CommanderDamage(EntityId(200)) },
        ]
    );
}

#[test]
fn commander_dying_offers_the_command_zone() {
    let mut manager = CommandZoneManager::builder().add_commander(EntityId(1), EntityId(100)).build();
    let mut commanders = EntityMap::new();
    commanders.insert(EntityId(100), commander_of(1));
    let events = vec![
        ZoneChangeEvent { card: EntityId(100), owner: EntityId(1), source: Zone::Hand, destination: Zone::Battlefield },
        ZoneChangeEvent { card: EntityId(100), owner: EntityId(1), source: Zone::Battlefield, destination: Zone::Graveyard },
        ZoneChangeEvent { card: EntityId(555), owner: EntityId(1), source: Zone::Battlefield, destination: Zone::Graveyard },
        ZoneChangeEvent { card: EntityId(100), owner: EntityId(1), source: Zone::Graveyard, destination: Zone::Exile },
    ];
    let choices = handle_commander_zone_change(&mut manager, &events, &commanders);
    assert_eq!(
        choices,
        vec![CommanderZoneChoiceEvent {
            commander: EntityId(100),
            owner: EntityId(1),
            current_zone: Zone::Graveyard,
            can_go_to_command_zone: true,
        }]
    );
    assert_eq!(manager.get_cast_count(EntityId(100)), 1);
    assert_eq!(manager.get_commander_zone(EntityId(100)), CommanderZoneLocation::Exile);

    let moves = process_commander_zone_choices(&mut manager, &choices);
    assert_eq!(
        moves,
        vec![ZoneChangeEvent { card: EntityId(100), owner: EntityId(1), source: Zone::Graveyard, destination: Zone::CommandZone }]
    );
    assert_eq!(manager.get_commander_zone(EntityId(100)), CommanderZoneLocation::CommandZone);
    assert_eq!(manager.get_cast_count(EntityId(100)), 2);
}

#[test]
fn declined_choice_moves_nothing() {
    let mut manager = CommandZoneManager::default();
    let choice = CommanderZoneChoiceEvent {
        commander: EntityId(100),
        owner: EntityId(1),
        current_zone: Zone::Exile,
        can_go_to_command_zone: false,
    };
    let moves = process_commander_zone_choices(&mut manager, &vec![choice]);
    assert!(moves.is_empty());
    assert_eq!(manager.get_cast_count(EntityId(100)), 0);
}

#[test]
fn initialize_puts_every_commander_in_the_command_zone() {
    let (zone, mut manager) = setup_commander();
    assert!(zone.cards.is_empty());
    let mut pc = EntityMap::new();
    pc.insert(EntityId(1), vec![EntityId(100), EntityId(101)]);
    pc.insert(EntityId(2), vec![EntityId(200)]);
    manager.zone_transition_count.insert(EntityId(100), 4);
    manager.initialize(pc);
    assert_eq!(manager.get_player_commanders(EntityId(1)), vec![EntityId(100), EntityId(101)]);
    assert!(manager.get_player_commanders(EntityId(3)).is_empty());
    assert_eq!(manager.get_cast_count(EntityId(100)), 0);
    assert_eq!(manager.get_commander_zone(EntityId(200)), CommanderZoneLocation::CommandZone);
    assert_eq!(*manager.commander_zone_status.get(EntityId(101)).unwrap(), CommanderZoneLocation::CommandZone);
}

#[test]
fn builder_records_partners_and_colors() {
    let mut white = ColorSet::empty();
    white.insert(ManaColor::White);
    let manager = CommandZoneManager::builder()
        .add_commander(EntityId(1), EntityId(100))
        .add_commander(EntityId(1), EntityId(101))
        .add_partner(EntityId(100), EntityId(101))
        .set_color_identity(EntityId(100), white)
        .set_commander_zone(EntityId(101), CommanderZoneLocation::Battlefield)
        .build();
    assert_eq!(*manager.commander_partners.get(EntityId(100)).unwrap(), EntityId(101));
    assert_eq!(*manager.commander_partners.get(EntityId(101)).unwrap(), EntityId(100));
    assert!(manager.commander_colors.get(EntityId(100)).unwrap().contains(ManaColor::White));
    assert_eq!(manager.get_commander_zone(EntityId(101)), CommanderZoneLocation::Battlefield);
    assert_eq!(manager.get_player_commanders(EntityId(1)), vec![EntityId(100), EntityId(101)]);
}

#[test]
fn command_zone_add_and_remove() {
    let mut zone = CommandZone::builder().add_card(EntityId(1)).add_card(EntityId(1)).build();
    assert_eq!(zone.cards, vec![EntityId(1)]);
    zone.add_card(EntityId(2));
    zone.add_card(EntityId(2));
    assert_eq!(zone.cards, vec![EntityId(1), EntityId(2)]);
    assert!(zone.contains(EntityId(2)));
    assert!(zone.remove_card(EntityId(1)));
    assert!(!zone.remove_card(EntityId(1)));
    assert!(!zone.contains(EntityId(1)));
    assert_eq!(zone.cards, vec![EntityId(2)]);
}

#[test]
fn command_zone_remove_undoes_add() {
    let mut zone = CommandZone::builder().cards(vec![EntityId(5), EntityId(6)]).build();
    let before = zone.cards.clone();
    zone.add_card(EntityId(9));
    zone.remove_card(EntityId(9));
    assert_eq!(zone.cards, before);
}

#[test]
fn deck_validation_lists_cards_outside_the_commanders_colour_identity() {
    let white_green = ColorSet { white: true, blue: false, black: false, red: false, green: true };
    let manager = CommandZoneManager::builder()
        .add_commander(EntityId(1), EntityId(100))
        .set_color_identity(EntityId(100), white_green)
        .build();
    let mut decks: EntityMap<Vec<(EntityId, Card)>> = EntityMap::new();
    decks.insert(
        EntityId(1),
        vec![
            (EntityId(10), card(CardTypes::creature(), Mana { colorless: 1, white: 1, blue: 0, black: 0, red: 0, green: 0 }, "")),
            (EntityId(11), card(CardTypes::creature(), Mana { colorless: 0, white: 0, blue: 0, black: 0, red: 1, green: 0 }, "")),
            (EntityId(12), card(CardTypes::creature(), Mana::zero(), "{T}: Add {U}.")),
            (EntityId(13), card(CardTypes::creature(), Mana { colorless: 3, white: 0, blue: 0, black: 0, red: 0, green: 0 }, "")),
            (EntityId(14), card(CardTypes::creature(), Mana { colorless: 0, white: 1, blue: 0, black: 0, red: 0, green: 1 }, "{G}")),
        ],
    );
    decks.insert(EntityId(2), vec![(EntityId(20), card(CardTypes::creature(), Mana { colorless: 0, white: 0, blue: 0, black: 1, red: 0, green: 0 }, ""))]);
    let errors = validate_commander_deck(&manager, &vec![EntityId(1), EntityId(2), EntityId(1)], &decks);
    assert_eq!(errors.len(), 1);
    assert_eq!(errors.get(EntityId(1)).unwrap(), &vec![EntityId(11), EntityId(12)]);
    assert!(errors.get(EntityId(2)).is_none());
}

#[test]
fn default_commander_has_placeholder_owner() {
    let c = Commander::default();
    assert_eq!(c.owner.0, bevy::ecs::entity::Entity::PLACEHOLDER.to_bits());
    assert_eq!(c.cast_count, 0);
    assert!(c.damage_dealt.is_empty());
}

#[test]
fn color_identity_can_be_set_later() {
    let mut manager = CommandZoneManager::default();
    let mut colors = ColorSet::empty();
    colors.insert(ManaColor::Green);
    manager.set_commander_color_identity(EntityId(100), colors);
    assert!(manager.commander_colors.get(EntityId(100)).unwrap().contains(ManaColor::Green));
}
