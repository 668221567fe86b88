use rummage::actions::{can_pay_mana, is_instant_cast, process_game_actions, valid_time_for_sorcery, valid_time_to_play_land, GameAction};
use rummage::card_render::{classify_symbol, symbol_to_color, SymbolColor};
use rummage::card_scripts::{
    handle_card_play_event, handle_card_selection_event, handle_counter_spell_input, handle_entity_selection,
    handle_target_selection_input, handle_target_selection_output, AddToStackEvent, CardId, CardPlayEvent, CardScript,
    CardScriptMap, CardSelectionState, CardState, CounterSpellInputEvent, CounterSpellOutputEvent, Interaction,
    InteractionResult, ScriptPlay, SelectCardEvent, SelectedCardIds, TargetSelectionInput, TargetSelectionOutput, TargetType,
};
use rummage::cards::{Card, CardDetails, CardTypes, CreatureCard, CreatureType, Mana};
use rummage::docs::Docs;
use rummage::text::{decimal_string, parses_u32, trim_text};
use rummage::entity::{EntityId, EntityMap};
use rummage::events::{
    log_card_events, log_game_state_events, log_player_events, log_stack_events, log_turn_events, log_zone_events, CardEvent,
    GameStateEvent, PlayerEvent, StackEvent, TurnEvent, ZoneEvent,
};
use rummage::game::{GameStack, GameState, Player, StackItem, Zone};
use rummage::keywords_and_counters::{
    check_indestructible, copy_counters, copy_keywords, handle_counter_interactions, handle_proliferate,
    process_counter_changes, process_keyword_changes, CounterChangeEvent, CounterType, Counters, IndestructibleTracker,
    Keyword, KeywordChangeEvent, Keywords, ProliferateTracker,
};
use rummage::permanent::{update_permanent_state, PermanentController, PermanentOwner, PermanentState};
use rummage::phase::{CombatStep, Phase, PostcombatStep, PrecombatStep};
use rummage::player::{draw_card, DrawCardEvent, HandZone, LibraryZone, PlayerEntry};
use rummage::priority::PrioritySystem;

fn game_state(active: u64) -> GameState {
    GameState {
        active_player: EntityId(active),
        priority_holder: EntityId(active),
        turn_number: 1,
        turn_order: vec![EntityId(1), EntityId(2)],
        main_phase_action_taken: false,
        state_based_actions_performed: false,
        lands_played: vec![],
    }
}

fn typed_card(types: CardTypes) -> Card {
    Card::new("c".to_string(), Mana::zero(), types, CardDetails::Other, String::new())
}

fn cid(id: u64, archetype_id: u32) -> CardId {
    CardId { id, archetype_id }
}

#[test]
fn log_lines_name_the_event_kind() {
    let card = CardEvent { card: EntityId(3) };
    let logs = log_card_events(&vec![card, CardEvent { card: EntityId(4) }]);
    assert_eq!(logs.len(), 2);
    assert_eq!(logs[0].message, format!("CardEvent: {:?}", card));
    assert_eq!(logs[1].message, format!("CardEvent: {:?}", CardEvent { card: EntityId(4) }));
    let p = PlayerEvent { player: EntityId(1) };
    assert_eq!(log_player_events(&vec![p])[0].message, format!("PlayerEvent: {:?}", p));
    let z = ZoneEvent { card: EntityId(5), zone: Zone::Graveyard };
    assert_eq!(log_zone_events(&vec![z])[0].message, format!("ZoneEvent: {:?}", z));
    let t = TurnEvent { turn: 9 };
    assert_eq!(log_turn_events(&vec![t])[0].message, format!("TurnEvent: {:?}", t));
    let s = StackEvent { item: EntityId(6) };
    assert_eq!(log_stack_events(&vec![s])[0].message, format!("StackEvent: {:?}", s));
    let g = GameStateEvent { player: EntityId(2) };
    assert_eq!(log_game_state_events(&vec![g])[0].message, format!("GameStateEvent: {:?}", g));
    assert!(log_card_events(&vec![]).is_empty());
}

#[test]
fn players_draw_the_top_card_into_their_hand() {
    let mut libraries = EntityMap::new();
    libraries.insert(EntityId(10), LibraryZone { cards: vec![EntityId(100), EntityId(101)] });
    libraries.insert(EntityId(20), LibraryZone { cards: vec![] });
    let mut hands = EntityMap::new();
    hands.insert(EntityId(11), HandZone { cards: vec![] });
    hands.insert(EntityId(21), HandZone { cards: vec![] });
    let mut players = vec![
        PlayerEntry { entity: EntityId(1), player: Player { life: 40, cards_to_draw: 2 }, children: vec![EntityId(10), EntityId(11)] },
        PlayerEntry { entity: EntityId(2), player: Player { life: 40, cards_to_draw: 1 }, children: vec![EntityId(20), EntityId(21)] },
        PlayerEntry { entity: EntityId(3), player: Player { life: 40, cards_to_draw: 0 }, children: vec![] },
    ];
    let drawn = draw_card(&mut players, &mut libraries, &mut hands);
    assert_eq!(drawn, vec![DrawCardEvent { player_id: EntityId(1), card_id: EntityId(101) }]);
    assert_eq!(players[0].player.cards_to_draw, 1);
    assert_eq!(players[1].player.cards_to_draw, 1);
    assert_eq!(libraries.get(EntityId(10)).unwrap().cards, vec![EntityId(100)]);
    assert_eq!(hands.get(EntityId(11)).unwrap().cards, vec![EntityId(101)]);
    assert!(hands.get(EntityId(21)).unwrap().cards.is_empty());
}

#[test]
fn library_and_hand_zones() {
    let mut lib = LibraryZone { cards: vec![EntityId(1), EntityId(2)] };
    assert_eq!(lib.draw_card(), Some(EntityId(2)));
    assert_eq!(lib.draw_card(), Some(EntityId(1)));
    assert_eq!(lib.draw_card(), None);
    let mut hand = HandZone { cards: vec![] };
    hand.add_card(EntityId(7));
    assert_eq!(hand.cards, vec![EntityId(7)]);
}

#[test]
fn docs_commands_and_outcomes() {
    assert_eq!(Docs::project_root("/home/me/rummage"), "/home/me/rummage");
    assert_eq!(Docs::build_args(), vec!["build", "docs"]);
    assert_eq!(Docs::serve_args(), vec!["serve", "docs", "--open"]);
    assert_eq!(Docs::check_args(), vec!["test", "docs"]);
    assert_eq!(Docs::launch_error("not found"), "Failed to execute mdbook: not found");
    assert_eq!(Docs::build_outcome(true, "x"), Ok(()));
    assert_eq!(Docs::build_outcome(false, "bad"), Err("mdbook build failed: bad".to_string()));
    assert_eq!(Docs::serve_outcome(false), Err("mdbook serve failed".to_string()));
    assert_eq!(Docs::serve_outcome(true), Ok(()));
    assert_eq!(Docs::check_outcome(false, "oops"), Err("mdbook test failed: oops".to_string()));
    assert_eq!(Docs::check_outcome(true, ""), Ok(()));
}

#[test]
fn mana_symbols_get_their_colors() {
    assert_eq!(symbol_to_color("{W}"), SymbolColor::White);
    assert_eq!(symbol_to_color(" {U} "), SymbolColor::Blue);
    assert_eq!(symbol_to_color("{B}"), SymbolColor::Black);
    assert_eq!(symbol_to_color("{R}"), SymbolColor::Red);
    assert_eq!(symbol_to_color("{G}\n"), SymbolColor::Green);
    assert_eq!(symbol_to_color("{C}"), SymbolColor::Colorless);
    assert_eq!(symbol_to_color("{2}"), SymbolColor::Generic);
    assert_eq!(symbol_to_color("{15}"), SymbolColor::Generic);
    assert_eq!(symbol_to_color("{X}"), SymbolColor::Generic);
    assert_eq!(symbol_to_color("{+5}"), SymbolColor::Generic);
    assert_eq!(symbol_to_color("{T}"), SymbolColor::OtherSymbol);
    assert_eq!(symbol_to_color("{99999999999}"), SymbolColor::OtherSymbol);
    assert_eq!(symbol_to_color("{}"), SymbolColor::OtherSymbol);
    assert_eq!(symbol_to_color("{"), SymbolColor::PlainText);
    assert_eq!(symbol_to_color("abc"), SymbolColor::PlainText);
    assert_eq!(symbol_to_color(""), SymbolColor::PlainText);
    assert_eq!(classify_symbol(" {W}"), SymbolColor::PlainText);
}

#[test]
fn selecting_targeting_and_playing_cards() {
    let mut parents = EntityMap::new();
    parents.insert(EntityId(5), cid(1, 7));
    let presses = vec![(Interaction::Hovered, EntityId(5)), (Interaction::Pressed, EntityId(5)), (Interaction::Pressed, EntityId(6))];
    let selected = handle_entity_selection(&presses, &parents);
    assert_eq!(selected, vec![SelectCardEvent { card_id: cid(1, 7), interaction: InteractionResult::Continue }]);

    let mut ids = SelectedCardIds { ids: vec![] };
    let (requests, state) = handle_card_selection_event(&selected, &mut ids);
    assert!(requests.is_empty() && state.is_none() && ids.ids.is_empty());

    let target = TargetType { kind: 3 };
    let events = vec![
        SelectCardEvent { card_id: cid(1, 7), interaction: InteractionResult::SelectTarget(target) },
        SelectCardEvent { card_id: cid(2, 8), interaction: InteractionResult::Continue },
    ];
    let (requests, state) = handle_card_selection_event(&events, &mut ids);
    assert_eq!(requests, vec![TargetSelectionInput { target_type: target }]);
    assert_eq!(state, Some(CardSelectionState::Targeting));
    assert_eq!(ids.ids, vec![cid(1, 7)]);

    let outputs = handle_target_selection_input(&requests);
    assert_eq!(outputs, vec![TargetSelectionOutput { target }]);
    let (plays, state) = handle_target_selection_output(&outputs, &mut ids);
    assert_eq!(plays, vec![CardPlayEvent { card_id: cid(1, 7), target: Some(target) }]);
    assert_eq!(state, Some(CardSelectionState::Idle));
    assert!(ids.ids.is_empty());

    let (plays, state) = handle_target_selection_output(&vec![], &mut ids);
    assert!(plays.is_empty() && state.is_none());
}

#[test]
fn played_cards_go_on_the_stack_and_can_be_countered() {
    let script = CardScript { archetype_id: 7 };
    let map = CardScriptMap { map: vec![(7, script)] };
    let fresh = CardState { played: false, countered: false };
    let mut cards = vec![(cid(1, 7), fresh), (cid(2, 9), fresh), (cid(3, 7), fresh)];
    let plays = vec![
        CardPlayEvent { card_id: cid(1, 7), target: Some(TargetType { kind: 1 }) },
        CardPlayEvent { card_id: cid(2, 9), target: None },
    ];
    let added = handle_card_play_event(&plays, &mut cards, &map);
    assert_eq!(added.stack, vec![AddToStackEvent { card_id: cid(1, 7), script, target: Some(TargetType { kind: 1 }) }]);
    assert_eq!(added.plays, vec![ScriptPlay { script, card_id: cid(1, 7), target: Some(TargetType { kind: 1 }) }]);
    assert!(cards[0].1.played && cards[1].1.played && !cards[2].1.played);

    let answers = handle_counter_spell_input(
        &vec![CounterSpellInputEvent { card_id: cid(1, 7) }, CounterSpellInputEvent { card_id: cid(1, 7) }, CounterSpellInputEvent { card_id: cid(3, 7) }],
        &mut cards,
    );
    assert_eq!(
        answers,
        vec![
            CounterSpellOutputEvent { card_id: cid(1, 7), countered: true },
            CounterSpellOutputEvent { card_id: cid(1, 7), countered: false },
            CounterSpellOutputEvent { card_id: cid(3, 7), countered: false },
        ]
    );
    assert!(cards[0].1.countered && !cards[2].1.countered);
}

#[test]
fn card_state_play_and_counter() {
    let mut s = CardState { played: false, countered: false };
    assert!(!s.can_counter());
    s.play();
    assert!(s.can_counter());
    s.counter();
    assert!(!s.can_counter());
    assert!(s.played && s.countered);
}

#[test]
fn timing_of_lands_and_sorceries() {
    let gs = game_state(1);
    let main = Phase::Precombat(PrecombatStep::Main);
    assert!(valid_time_to_play_land(&gs, &main, EntityId(1)));
    assert!(valid_time_to_play_land(&gs, &Phase::Postcombat(PostcombatStep::Main), EntityId(1)));
    assert!(!valid_time_to_play_land(&gs, &main, EntityId(2)));
    assert!(!valid_time_to_play_land(&gs, &Phase::Combat(CombatStep::Beginning), EntityId(1)));
    let empty = GameStack { items: vec![], resolving: false };
    let busy = GameStack { items: vec![StackItem { entity: EntityId(9) }], resolving: false };
    assert!(valid_time_for_sorcery(&gs, &main, &empty, EntityId(1)));
    assert!(!valid_time_for_sorcery(&gs, &main, &busy, EntityId(1)));
    assert!(!valid_time_for_sorcery(&gs, &main, &empty, EntityId(2)));
    assert!(is_instant_cast(&typed_card(CardTypes::instant())));
    assert!(!is_instant_cast(&typed_card(CardTypes::sorcery())));
    assert!(can_pay_mana(&Player { life: 1, cards_to_draw: 0 }, &Mana { colorless: 99, ..Mana::zero() }));
}

#[test]
fn actions_play_one_land_and_pass_priority() {
    let mut gs = game_state(1);
    let stack = GameStack { items: vec![], resolving: false };
    let mut priority = PrioritySystem::default();
    priority.initialize(&[EntityId(1), EntityId(2)], EntityId(1));
    let mut cards = EntityMap::new();
    cards.insert(EntityId(50), typed_card(CardTypes::land()));
    cards.insert(EntityId(51), typed_card(CardTypes::land()));
    cards.insert(EntityId(52), typed_card(CardTypes::sorcery()));
    let mut players = EntityMap::new();
    players.insert(EntityId(1), Player { life: 40, cards_to_draw: 0 });
    let actions = vec![
        GameAction::PlayLand { player: EntityId(1), land_card: EntityId(52) },
        GameAction::PlayLand { player: EntityId(2), land_card: EntityId(50) },
        GameAction::PlayLand { player: EntityId(1), land_card: EntityId(50) },
        GameAction::PlayLand { player: EntityId(1), land_card: EntityId(51) },
        GameAction::CastSpell { player: EntityId(1), spell_card: EntityId(52), targets: vec![], mana_payment: Mana::zero() },
        GameAction::PassPriority { player: EntityId(2) },
        GameAction::PassPriority { player: EntityId(1) },
    ];
    process_game_actions(&mut gs, &stack, &mut priority, &Phase::Precombat(PrecombatStep::Main), &actions, &players, &cards);
    assert_eq!(gs.lands_played, vec![EntityId(1)]);
    assert!(priority.has_priority(EntityId(2)));
    assert!(priority.has_passed(EntityId(1)));
}

#[test]
fn keywords_are_granted_and_removed() {
    let mut kw = Keywords::new();
    kw.add(Keyword::Flying);
    kw.add(Keyword::Flying);
    kw.add_until_end_of_turn(Keyword::Lifelink);
    kw.add_granted_by(Keyword::Deathtouch, EntityId(9));
    kw.add_with_details(Keyword::Landfall, "gain 1 life".to_string());
    assert_eq!(kw.active, vec![Keyword::Flying, Keyword::Lifelink, Keyword::Deathtouch, Keyword::Landfall]);
    assert!(kw.has(Keyword::Deathtouch));
    assert_eq!(kw.details_of(Keyword::Landfall), Some("gain 1 life".to_string()));
    kw.remove(Keyword::Deathtouch);
    kw.remove(Keyword::Landfall);
    assert!(!kw.has(Keyword::Deathtouch));
    assert!(kw.granted_by.is_empty());
    assert_eq!(kw.details_of(Keyword::Landfall), None);

    let mut all = EntityMap::new();
    all.insert(EntityId(1), Keywords::new());
    let events = vec![
        KeywordChangeEvent { card: EntityId(1), keyword: Keyword::Shadow, added: true, until_end_of_turn: false, source: None },
        KeywordChangeEvent { card: EntityId(2), keyword: Keyword::Shadow, added: true, until_end_of_turn: false, source: None },
        KeywordChangeEvent { card: EntityId(1), keyword: Keyword::Prowess, added: true, until_end_of_turn: true, source: None },
        KeywordChangeEvent { card: EntityId(1), keyword: Keyword::Shadow, added: false, until_end_of_turn: false, source: None },
    ];
    process_keyword_changes(&events, &mut all);
    assert_eq!(all.get(EntityId(1)).unwrap().active, vec![Keyword::Prowess]);
    assert!(all.get(EntityId(2)).is_none());
}

#[test]
fn counters_add_remove_and_cancel() {
    let mut c = Counters::new();
    c.add(CounterType::PlusOnePlusOne, 3);
    c.add(CounterType::MinusOneMinusOne, 5);
    c.remove(CounterType::Loyalty, 2);
    assert_eq!(c.get(CounterType::Loyalty), 0);
    let mut list = vec![c, Counters::new()];
    handle_counter_interactions(&mut list);
    assert_eq!(list[0].get(CounterType::PlusOnePlusOne), 0);
    assert_eq!(list[0].get(CounterType::MinusOneMinusOne), 2);
    assert_eq!(list[1], Counters::new());

    let mut all = EntityMap::new();
    all.insert(EntityId(1), Counters::new());
    let events = vec![
        CounterChangeEvent { card: EntityId(1), counter_type: CounterType::Charge, amount: 4, source: None },
        CounterChangeEvent { card: EntityId(1), counter_type: CounterType::Charge, amount: -1, source: None },
        CounterChangeEvent { card: EntityId(1), counter_type: CounterType::Poison, amount: -3, source: None },
        CounterChangeEvent { card: EntityId(2), counter_type: CounterType::Charge, amount: 4, source: None },
    ];
    process_counter_changes(&events, &mut all);
    assert_eq!(all.get(EntityId(1)).unwrap().get(CounterType::Charge), 3);
    assert_eq!(all.get(EntityId(1)).unwrap().get(CounterType::Poison), 0);
    assert!(all.get(EntityId(2)).is_none());
}

#[test]
fn proliferate_adds_one_of_each_kind() {
    let mut c = Counters::new();
    c.add(CounterType::Loyalty, 2);
    c.add(CounterType::Poison, 1);
    let mut list = vec![(EntityId(1), c), (EntityId(2), Counters::new())];
    let mut tracker = ProliferateTracker { pending_proliferate: false, affected_entities: vec![] };
    handle_proliferate(&mut tracker, &mut list);
    assert_eq!(list[0].1.get(CounterType::Loyalty), 2);
    tracker.pending_proliferate = true;
    handle_proliferate(&mut tracker, &mut list);
    assert!(!tracker.pending_proliferate);
    assert_eq!(list[0].1.get(CounterType::Loyalty), 3);
    assert_eq!(list[0].1.get(CounterType::Poison), 2);
    assert_eq!(list[1].1, Counters::new());
    assert_eq!(tracker.affected_entities, vec![EntityId(1), EntityId(1)]);
}

#[test]
fn indestructible_permanents_are_tracked_once() {
    let mut a = Keywords::new();
    a.add(Keyword::Indestructible);
    let mut a2 = Keywords::new();
    a2.add(Keyword::Indestructible);
    let b = Keywords::new();
    let mut tracker = IndestructibleTracker { entities: vec![EntityId(99)] };
    check_indestructible(&mut tracker, &vec![(EntityId(1), a), (EntityId(2), b), (EntityId(1), a2)]);
    assert_eq!(tracker.entities, vec![EntityId(1)]);
}

#[test]
fn copying_keywords_and_counters() {
    let mut kws = EntityMap::new();
    let mut src = Keywords::new();
    src.add(Keyword::Flying);
    src.add_with_details(Keyword::Landfall, "draw".to_string());
    let mut dst = Keywords::new();
    dst.add(Keyword::Shadow);
    kws.insert(EntityId(1), src);
    kws.insert(EntityId(2), dst);
    assert!(copy_keywords(EntityId(1), EntityId(2), &mut kws));
    let copied = kws.get(EntityId(2)).unwrap();
    assert_eq!(copied.active, vec![Keyword::Flying, Keyword::Landfall]);
    assert_eq!(copied.details_of(Keyword::Landfall), Some("draw".to_string()));
    assert!(!copy_keywords(EntityId(1), EntityId(3), &mut kws));

    let mut counters = EntityMap::new();
    let mut c = Counters::new();
    c.add(CounterType::Experience, 2);
    counters.insert(EntityId(1), c);
    counters.insert(EntityId(2), Counters::new());
    assert!(copy_counters(EntityId(1), EntityId(2), &mut counters));
    assert_eq!(*counters.get(EntityId(2)).unwrap(), c);
    assert!(!copy_counters(EntityId(3), EntityId(2), &mut counters));
}

#[test]
fn tapping_untapping_and_sickness() {
    let mut s = PermanentState::new(3);
    assert!(!s.can_tap(true));
    assert!(s.can_tap(false));
    let before = s;
    assert!(s.tap());
    assert!(!s.tap());
    assert!(s.untap());
    assert!(!s.untap());
    assert_eq!(s, before);
    s.update_summoning_sickness(3);
    assert!(s.has_summoning_sickness);
    s.update_summoning_sickness(4);
    assert!(!s.has_summoning_sickness);
    assert!(s.can_tap(true));

    let mut states = vec![PermanentState::new(1), PermanentState::new(5), PermanentState::default()];
    update_permanent_state(5, &mut states);
    assert!(!states[0].has_summoning_sickness);
    assert!(states[1].has_summoning_sickness);
    assert!(!states[2].has_summoning_sickness);
    assert_eq!(PermanentOwner::new(EntityId(4)).player, EntityId(4));
    assert_eq!(PermanentController::new(EntityId(5)).player, EntityId(5));
}

#[test]
fn creature_card_fields() {
    let c = Card::new(
        "Bear".to_string(),
        Mana { green: 1, colorless: 1, ..Mana::zero() },
        CardTypes::creature(),
        CardDetails::Creature(CreatureCard { power: 2, toughness: 2, creature_type: CreatureType { bits: 4 } }),
        String::new(),
    );
    assert_eq!(c.name, "Bear");
    assert!(c.types.contains(CardTypes::creature()));
    assert!(!c.types.contains(CardTypes::land()));
}

#[test]
fn keyword_text_is_replaced() {
    let mut kw = Keywords::new();
    kw.add_with_details(Keyword::Landfall, "first".to_string());
    kw.add_with_details(Keyword::Prowess, "other".to_string());
    kw.add_with_details(Keyword::Landfall, "second".to_string());
    assert_eq!(kw.details_of(Keyword::Landfall), Some("second".to_string()));
    assert_eq!(kw.details.len(), 2);
    assert_eq!(kw.active, vec![Keyword::Landfall, Keyword::Prowess]);
}

#[test]
fn removing_a_keyword_undoes_adding_it() {
    let mut kw = Keywords::new();
    kw.add(Keyword::Flying);
    let before = kw.active.clone();
    kw.add(Keyword::Shadow);
    kw.remove(Keyword::Shadow);
    assert_eq!(kw.active, before);
    kw.add(Keyword::Flying);
    kw.remove(Keyword::Flying);
    assert!(!kw.has(Keyword::Flying));
}

#[test]
fn plus_and_minus_counters_cancel_keeping_the_difference() {
    let mut c = Counters::new();
    c.add(CounterType::PlusOnePlusOne, 2);
    c.add(CounterType::MinusOneMinusOne, 7);
    c.add(CounterType::Loyalty, 4);
    let mut list = vec![c];
    handle_counter_interactions(&mut list);
    assert_eq!(list[0].get(CounterType::PlusOnePlusOne), 0);
    assert_eq!(list[0].get(CounterType::MinusOneMinusOne), 5);
    assert_eq!(list[0].get(CounterType::Loyalty), 4);
}

#[test]
fn removing_counters_undoes_adding_them() {
    let mut c = Counters::new();
    c.add(CounterType::Charge, 3);
    let before = c;
    c.add(CounterType::Charge, 5);
    c.remove(CounterType::Charge, 5);
    assert_eq!(c, before);
}

#[test]
fn number_parsing_follows_u32_from_str() {
    assert!(parses_u32("0"));
    assert!(parses_u32("+12"));
    assert!(parses_u32("4294967295"));
    assert!(!parses_u32("4294967296"));
    assert!(!parses_u32("99999999999"));
    assert!(!parses_u32(""));
    assert!(!parses_u32("+"));
    assert!(!parses_u32("-1"));
    assert!(!parses_u32("12a"));
    assert!(!parses_u32(" 1"));
    for s in ["0", "+7", "007", "4294967295", "4294967296", "", "+", "x", "1 2"] {
        assert_eq!(parses_u32(s), s.parse::<u32>().is_ok());
    }
}

#[test]
fn trimming_removes_unicode_white_space_at_both_ends() {
    assert_eq!(trim_text("  {W}\t\n"), "{W}");
    assert_eq!(trim_text("\u{3000}{2} \u{a0}"), "{2}");
    assert_eq!(trim_text("a b"), "a b");
    assert_eq!(trim_text("   "), "");
    for s in ["  x ", "\u{2028}y\u{85}", "\u{200b}z", "", "\u{1680}\u{205f}w\u{202f}"] {
        assert_eq!(trim_text(s), s.trim());
    }
}

#[test]
fn decimal_rendering_matches_to_string() {
    for n in [0usize, 7, 10, 99, 100, 12345, usize::MAX] {
        assert_eq!(decimal_string(n), n.to_string());
    }
}
