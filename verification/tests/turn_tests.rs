use rummage::entity::EntityId;
use rummage::game::{GameStack, GameState, StackItem, TurnManager};
use rummage::phase::{BeginningStep, CombatStep, EndingStep, Phase, PostcombatStep, PrecombatStep};
use rummage::phase_systems::{advance_phase, phase_transition_system};
use rummage::priority::{priority_passing_system, priority_system, PassPriorityEvent, PrioritySystem};

fn game_state(active: u64, order: &[u64]) -> GameState {
    GameState {
        active_player: EntityId(active),
        priority_holder: EntityId(active),
        turn_number: 1,
        turn_order: order.iter().map(|&p| EntityId(p)).collect(),
        main_phase_action_taken: false,
        state_based_actions_performed: false,
        lands_played: Vec::new(),
    }
}

fn turn_manager(active: u64, order: &[u64]) -> TurnManager {
    TurnManager {
        active_player: EntityId(active),
        turn_number: 1,
        current_phase: Phase::Beginning(BeginningStep::Untap),
        player_order: order.iter().map(|&p| EntityId(p)).collect(),
        eliminated_players: Vec::new(),
    }
}

#[test]
fn turn_has_twelve_steps_in_order() {
    let mut p = Phase::Beginning(BeginningStep::Untap);
    let expected = [
        Phase::Beginning(BeginningStep::Upkeep),
        Phase::Beginning(BeginningStep::Draw),
        Phase::Precombat(PrecombatStep::Main),
        Phase::Combat(CombatStep::Beginning),
        Phase::Combat(CombatStep::DeclareAttackers),
        Phase::Combat(CombatStep::DeclareBlockers),
        Phase::Combat(CombatStep::CombatDamage),
        Phase::Combat(CombatStep::End),
        Phase::Postcombat(PostcombatStep::Main),
        Phase::Ending(EndingStep::End),
        Phase::Ending(EndingStep::Cleanup),
        Phase::Beginning(BeginningStep::Untap),
    ];
    for e in expected.iter() {
        p = p.next();
        assert_eq!(p, *e);
    }
}

#[test]
fn phase_properties() {
    assert!(!Phase::Beginning(BeginningStep::Untap).allows_actions());
    assert!(Phase::Beginning(BeginningStep::Draw).allows_actions());
    assert!(!Phase::Ending(EndingStep::Cleanup).allows_actions());
    assert!(Phase::Beginning(BeginningStep::Upkeep).allows_actions());
    assert!(Phase::Precombat(PrecombatStep::Main).allows_sorcery_speed());
    assert!(Phase::Postcombat(PostcombatStep::Main).allows_sorcery_speed());
    assert!(!Phase::Combat(CombatStep::DeclareAttackers).allows_sorcery_speed());
    assert_eq!(Phase::default(), Phase::Beginning(BeginningStep::Untap));
}

#[test]
fn priority_round_completes_after_each_player_passes() {
    let players = [EntityId(1), EntityId(2), EntityId(3)];
    let mut p = PrioritySystem::default();
    p.initialize(&players, EntityId(2));
    assert_eq!(p.player_order, vec![EntityId(2), EntityId(3), EntityId(1)]);
    assert_eq!(p.priority_index, 0);
    assert!(p.has_priority(EntityId(2)));
    p.pass_priority();
    assert_eq!(p.priority_index, 1);
    assert!(p.has_priority(EntityId(3)));
    assert!(!p.priority_round_complete());
    p.pass_priority();
    assert!(p.has_priority(EntityId(1)));
    assert!(!p.priority_round_complete());
    p.pass_priority();
    assert!(p.has_priority(EntityId(2)));
    assert!(p.priority_round_complete());
    assert!(p.has_passed(EntityId(1)) && p.has_passed(EntityId(2)) && p.has_passed(EntityId(3)));
}

#[test]
fn pass_events_from_other_players_are_ignored() {
    let players = [EntityId(1), EntityId(2)];
    let mut p = PrioritySystem::default();
    p.initialize(&players, EntityId(1));
    let mut stack = GameStack { items: Vec::new(), resolving: false };
    let events = vec![PassPriorityEvent { player: EntityId(2) }, PassPriorityEvent { player: EntityId(1) }];
    let r = priority_passing_system(&mut p, &mut stack, &events, &players);
    assert!(r.next_phase.is_none() && r.resolve.is_none() && !r.timed_out);
    assert!(p.has_priority(EntityId(2)));
    assert!(p.has_passed(EntityId(1)));
    assert!(!p.has_passed(EntityId(2)));
}

#[test]
fn full_round_with_empty_stack_moves_on() {
    let players = [EntityId(1), EntityId(2)];
    let mut p = PrioritySystem::default();
    p.initialize(&players, EntityId(1));
    let mut stack = GameStack { items: Vec::new(), resolving: false };
    let events = vec![PassPriorityEvent { player: EntityId(1) }, PassPriorityEvent { player: EntityId(2) }];
    let r = priority_passing_system(&mut p, &mut stack, &events, &players);
    assert!(r.next_phase.is_some());
    assert!(r.resolve.is_none());
    assert!(!p.has_passed(EntityId(1)) && !p.has_passed(EntityId(2)));
    assert!(p.has_priority(EntityId(1)));
}

#[test]
fn full_round_with_items_resolves_the_top_and_returns_priority() {
    let players = [EntityId(1), EntityId(2), EntityId(3)];
    let mut p = PrioritySystem::default();
    p.initialize(&players, EntityId(2));
    let mut stack = GameStack { items: vec![StackItem { entity: EntityId(40) }, StackItem { entity: EntityId(41) }], resolving: false };
    let events = vec![
        PassPriorityEvent { player: EntityId(2) },
        PassPriorityEvent { player: EntityId(3) },
        PassPriorityEvent { player: EntityId(1) },
    ];
    let r = priority_passing_system(&mut p, &mut stack, &events, &players);
    assert!(r.next_phase.is_none());
    assert_eq!(r.resolve.unwrap().item, EntityId(41));
    assert!(stack.resolving);
    assert_eq!(stack.items.len(), 2);
    assert!(p.has_priority(EntityId(2)));
    assert_eq!(p.priority_index, 0);
    assert!(!p.has_passed(EntityId(1)) && !p.has_passed(EntityId(2)) && !p.has_passed(EntityId(3)));
}

#[test]
fn priority_step_updates_holder_and_clears_round_on_empty_stack() {
    let players = [EntityId(1), EntityId(2)];
    let mut gs = game_state(9, &[1, 2]);
    let mut p = PrioritySystem::default();
    p.initialize(&players, EntityId(1));
    p.pass_priority();
    p.pass_priority();
    assert!(p.all_players_passed);
    let empty = GameStack { items: Vec::new(), resolving: false };
    let phase = Phase::Precombat(PrecombatStep::Main);
    let r = priority_system(&mut p, &mut gs, &empty, phase, 1);
    assert!(r.next_phase.is_none() && !r.timed_out);
    assert!(!p.all_players_passed);
    assert!(p.stack_is_empty);
    assert_eq!(p.current_phase, phase);
    assert_eq!(gs.priority_holder, EntityId(1));
}

#[test]
fn priority_step_passes_for_everyone_in_untap() {
    let players = [EntityId(1), EntityId(2), EntityId(3)];
    let mut gs = game_state(2, &[1, 2, 3]);
    let mut p = PrioritySystem::default();
    p.initialize(&players, EntityId(2));
    let empty = GameStack { items: Vec::new(), resolving: false };
    let untap = Phase::Beginning(BeginningStep::Untap);
    let r = priority_system(&mut p, &mut gs, &empty, untap, 4);
    assert!(r.next_phase.is_none());
    assert!(p.all_players_passed);
    assert!(p.has_priority(EntityId(2)));
    assert!(p.has_passed(EntityId(1)) && p.has_passed(EntityId(2)) && p.has_passed(EntityId(3)));
    let main = Phase::Precombat(PrecombatStep::Main);
    p.initialize(&players, EntityId(2));
    priority_system(&mut p, &mut gs, &empty, main, 4);
    assert!(!p.has_passed(EntityId(2)));
}

#[test]
fn phase_advances_only_when_everyone_passed_on_an_empty_stack() {
    let players = [EntityId(1), EntityId(2)];
    let mut phase = Phase::Precombat(PrecombatStep::Main);
    let mut tm = turn_manager(1, &[1, 2]);
    let mut gs = game_state(1, &[1, 2]);
    let mut p = PrioritySystem::default();
    p.initialize(&players, EntityId(1));
    advance_phase(&mut phase, &mut tm, &mut gs, &mut p, &players);
    assert_eq!(phase, Phase::Precombat(PrecombatStep::Main));
    p.pass_priority();
    p.pass_priority();
    p.stack_is_empty = false;
    advance_phase(&mut phase, &mut tm, &mut gs, &mut p, &players);
    assert_eq!(phase, Phase::Precombat(PrecombatStep::Main));
    p.stack_is_empty = true;
    p.mark_phase_processed(phase, 1);
    advance_phase(&mut phase, &mut tm, &mut gs, &mut p, &players);
    assert_eq!(phase, Phase::Precombat(PrecombatStep::Main));
    p.last_processed_phase = None;
    advance_phase(&mut phase, &mut tm, &mut gs, &mut p, &players);
    assert_eq!(phase, Phase::Combat(CombatStep::Beginning));
    assert_eq!(tm.current_phase, Phase::Combat(CombatStep::Beginning));
    assert_eq!(tm.turn_number, 1);
    assert!(!p.all_players_passed);
    assert!(p.has_priority(EntityId(1)));
    assert_eq!(gs.priority_holder, EntityId(1));
}

#[test]
fn phase_transition_crosses_turns() {
    let players = [EntityId(1), EntityId(2)];
    let mut phase = Phase::Ending(EndingStep::Cleanup);
    let mut tm = turn_manager(1, &[1, 2]);
    let mut gs = game_state(1, &[1, 2]);
    let mut p = PrioritySystem::default();
    p.initialize(&players, EntityId(1));
    p.pass_priority();
    p.pass_priority();
    p.mark_phase_processed(Phase::Precombat(PrecombatStep::Main), 1);
    phase_transition_system(&mut phase, &mut tm, &mut gs, &mut p, 1, &players);
    assert_eq!(phase, Phase::Beginning(BeginningStep::Untap));
    assert_eq!(tm.current_phase, Phase::Beginning(BeginningStep::Untap));
    assert_eq!(tm.turn_number, 2);
    assert_eq!(gs.turn_number, 2);
    assert_eq!(tm.active_player, EntityId(2));
    assert_eq!(gs.active_player, EntityId(2));
    assert_eq!(p.player_order, vec![EntityId(2), EntityId(1)]);
    assert!(p.has_priority(EntityId(2)));
    assert!(p.all_players_passed);
    assert_eq!(gs.priority_holder, EntityId(2));
    assert!(p.last_processed_phase.is_none());
    assert_eq!(p.last_processed_turn, 2);
}

#[test]
fn phase_transition_without_requests_moves_on_and_marks_the_step() {
    let players = [EntityId(1), EntityId(2)];
    let mut phase = Phase::Beginning(BeginningStep::Upkeep);
    let mut tm = turn_manager(1, &[1, 2]);
    let mut gs = game_state(1, &[1, 2]);
    let mut p = PrioritySystem::default();
    p.initialize(&players, EntityId(1));
    phase_transition_system(&mut phase, &mut tm, &mut gs, &mut p, 0, &players);
    assert_eq!(phase, Phase::Beginning(BeginningStep::Upkeep));
    p.pass_priority();
    p.pass_priority();
    phase_transition_system(&mut phase, &mut tm, &mut gs, &mut p, 0, &players);
    assert_eq!(phase, Phase::Beginning(BeginningStep::Draw));
    assert!(p.has_processed_phase(Phase::Beginning(BeginningStep::Upkeep), 1));
}

#[test]
fn turn_passes_over_eliminated_players() {
    let mut tm = turn_manager(1, &[1, 2, 3]);
    tm.eliminated_players.push(EntityId(2));
    tm.advance_turn();
    assert_eq!(tm.active_player, EntityId(3));
    assert_eq!(tm.turn_number, 2);
    tm.advance_turn();
    assert_eq!(tm.active_player, EntityId(1));
}

#[test]
fn one_land_per_turn() {
    let mut gs = game_state(1, &[1]);
    assert!(gs.can_play_land(EntityId(1)));
    gs.record_land_played(EntityId(1));
    assert!(!gs.can_play_land(EntityId(1)));
    gs.reset_turn_tracking();
    assert!(gs.can_play_land(EntityId(1)));
}

#[test]
fn stack_emptiness() {
    let mut stack = GameStack { items: Vec::new(), resolving: false };
    assert!(stack.is_empty());
    stack.items.push(StackItem { entity: EntityId(9) });
    assert!(!stack.is_empty());
}

#[test]
fn turn_goes_to_the_last_remaining_player() {
    let mut tm = turn_manager(9, &[1, 2, 3, 4]);
    tm.eliminated_players = vec![EntityId(1), EntityId(2), EntityId(4)];
    tm.advance_turn();
    assert_eq!(tm.active_player, EntityId(3));
    tm.advance_turn();
    assert_eq!(tm.active_player, EntityId(3));
    assert_eq!(tm.turn_number, 3);
}

#[test]
fn turn_stays_when_everyone_is_eliminated() {
    let mut tm = turn_manager(2, &[1, 2]);
    tm.eliminated_players = vec![EntityId(1), EntityId(2)];
    tm.advance_turn();
    assert_eq!(tm.active_player, EntityId(2));
    assert_eq!(tm.turn_number, 2);
}

#[test]
fn automatic_passing_steps() {
    assert!(Phase::Beginning(BeginningStep::Untap).auto_pass_if_empty());
    assert!(Phase::Beginning(BeginningStep::Draw).auto_pass_if_empty());
    assert!(Phase::Combat(CombatStep::Beginning).auto_pass_if_empty());
    assert!(Phase::Combat(CombatStep::End).auto_pass_if_empty());
    assert!(Phase::Ending(EndingStep::Cleanup).auto_pass_if_empty());
    assert!(!Phase::Beginning(BeginningStep::Upkeep).auto_pass_if_empty());
    assert!(!Phase::Precombat(PrecombatStep::Main).auto_pass_if_empty());
}

#[test]
fn initialize_clears_decisions_and_waiting() {
    let players = [EntityId(1), EntityId(2)];
    let mut p = PrioritySystem::default();
    p.set_decision_timeout(EntityId(1), std::time::Duration::from_secs(30));
    assert_eq!(p.decision_timeouts.get(EntityId(1)).unwrap().as_secs(), 30);
    p.add_simultaneous_decision_player(EntityId(2));
    p.add_simultaneous_decision_player(EntityId(2));
    assert_eq!(p.simultaneous_decision_players, vec![EntityId(2)]);
    p.remove_simultaneous_decision_player(EntityId(2));
    assert!(p.simultaneous_decision_players.is_empty());
    p.add_simultaneous_decision_player(EntityId(1));
    p.waiting_for_response = true;
    p.initialize(&players, EntityId(1));
    assert!(p.simultaneous_decision_players.is_empty());
    assert!(p.decision_timeouts.get(EntityId(1)).is_none());
    assert!(!p.waiting_for_response);
    assert!(p.response_timeout.is_none());
}

#[test]
fn passing_back_round_to_the_active_player() {
    let players = [EntityId(5), EntityId(6), EntityId(7), EntityId(8)];
    let mut p = PrioritySystem::default();
    p.initialize(&players, EntityId(7));
    assert_eq!(p.player_order, vec![EntityId(7), EntityId(8), EntityId(5), EntityId(6)]);
    for m in 1..=4usize {
        p.pass_priority();
        assert_eq!(p.priority_index, m % 4);
        assert_eq!(p.all_players_passed, m >= 4);
    }
    assert!(p.has_priority(EntityId(7)));
}

#[test]
fn stack_action_resets_priority_to_the_active_player() {
    let players = [EntityId(1), EntityId(2)];
    let mut p = PrioritySystem::default();
    p.initialize(&players, EntityId(1));
    p.pass_priority();
    p.reset_after_stack_action(&players, EntityId(2));
    assert!(p.has_priority(EntityId(2)));
    assert_eq!(p.player_order, vec![EntityId(2), EntityId(1)]);
    assert!(!p.stack_is_empty);
    assert!(!p.has_passed(EntityId(1)));
    p.set_stack_empty(false);
    p.all_players_passed = true;
    p.set_stack_empty(false);
    assert!(p.all_players_passed);
    p.set_stack_empty(true);
    assert!(!p.all_players_passed);
}

#[test]
fn twelve_calls_of_next_return_to_the_same_step() {
    for start in [Phase::Beginning(BeginningStep::Draw), Phase::Ending(EndingStep::Cleanup), Phase::Combat(CombatStep::End)] {
        let mut seen = Vec::new();
        let mut p = start;
        for _ in 0..12 {
            assert!(!seen.contains(&p));
            seen.push(p);
            p = p.next();
        }
        assert_eq!(p, start);
    }
}

#[test]
fn phase_transition_stops_short_of_counting_past_the_last_turn() {
    let players = [EntityId(1), EntityId(2)];
    let mut phase = Phase::Ending(EndingStep::Cleanup);
    let mut tm = turn_manager(1, &[1, 2]);
    tm.turn_number = u32::MAX;
    let mut gs = game_state(1, &[1, 2]);
    let mut p = PrioritySystem::default();
    p.initialize(&players, EntityId(1));
    phase_transition_system(&mut phase, &mut tm, &mut gs, &mut p, 1, &players);
    assert_eq!(phase, Phase::Ending(EndingStep::Cleanup));
    assert_eq!(tm.turn_number, u32::MAX);
}
