//! Moving the game from one step to the next.

use vstd::prelude::*;
use crate::entity::EntityId;
use crate::game::{GameState, TurnManager, next_turn_player};
use crate::phase::{BeginningStep, EndingStep, Phase, step_at, turn_position};
use crate::priority::{PriorityView, PrioritySystem, after_initialize, after_reset_passing, passes, processed};

verus! {

/// What moving between steps reads and changes: the step, the turn
/// manager's fields, the game state's turn, active player and priority
/// holder, and the priority tracking.
pub struct StepState {
    pub phase: Phase,
    pub turn_number: u32,
    pub active_player: EntityId,
    pub current_phase: Phase,
    pub player_order: Seq<EntityId>,
    pub eliminated_players: Seq<EntityId>,
    pub game_turn_number: u32,
    pub game_active_player: EntityId,
    pub priority_holder: EntityId,
    pub priority: PriorityView,
}

/// The step state of the given values.
pub open spec fn step_state(phase: Phase, tm: TurnManager, gs: GameState, ps: PrioritySystem) -> StepState {
    StepState {
        phase,
        turn_number: tm.turn_number,
        active_player: tm.active_player,
        current_phase: tm.current_phase,
        player_order: tm.player_order@,
        eliminated_players: tm.eliminated_players@,
        game_turn_number: gs.turn_number,
        game_active_player: gs.active_player,
        priority_holder: gs.priority_holder,
        priority: ps@,
    }
}

/// The game may leave the current step: every player has passed, the stack
/// is empty and the step was not processed yet this turn.
pub open spec fn can_advance(s: StepState) -> bool {
    s.priority.all_players_passed && s.priority.stack_is_empty && !processed(s.priority, s.phase, s.turn_number)
}

/// The step state after one attempt to move to the next step, with
/// priority set up for `players`.
///
/// When the game may leave the step, it enters the next one and the turn
/// manager follows; leaving cleanup starts the next player's turn, which the
/// game state follows too. Priority is set up again for the turn manager's
/// active player; in a step where nobody may act, everyone passes at once.
/// The game state's priority holder follows the priority tracking, and a new
/// turn has no processed step yet. Otherwise nothing changes.
pub open spec fn advanced(s: StepState, players: Seq<EntityId>) -> StepState {
    if !can_advance(s) {
        s
    } else {
        let next = step_at(turn_position(s.phase) + 1);
        let new_turn = s.phase == Phase::Ending(EndingStep::Cleanup);
        let active = if new_turn {
            next_turn_player(s.player_order, s.eliminated_players, s.active_player)
        } else {
            s.active_player
        };
        let turn: u32 = if new_turn { (s.turn_number + 1) as u32 } else { s.turn_number };
        let i = PriorityView { all_players_passed: false, ..after_initialize(s.priority, players, active) };
        let p = if !next.spec_allows_actions() {
            passes(after_reset_passing(i), i.player_order.len())
        } else {
            i
        };
        let q = if new_turn {
            PriorityView { last_processed_phase: None, last_processed_turn: turn, ..p }
        } else {
            p
        };
        StepState {
            phase: next,
            turn_number: turn,
            active_player: active,
            current_phase: next,
            game_turn_number: if new_turn { turn } else { s.game_turn_number },
            game_active_player: if new_turn { active } else { s.game_active_player },
            priority_holder: q.priority_player,
            priority: q,
            ..s
        }
    }
}

/// Leaving the step counts a turn only when it fits in the turn counter:
/// when the game may leave cleanup, the turn number is below the 32-bit limit.
pub open spec fn fits_turn_count(s: StepState) -> bool {
    can_advance(s) && s.phase == Phase::Ending(EndingStep::Cleanup) ==> s.turn_number < u32::MAX
}

/// Moves to the next step when every player has passed, the stack is empty
/// and the step was not processed yet this turn; see `advanced`.
pub fn advance_phase(
    phase: &mut Phase,
    turn_manager: &mut TurnManager,
    game_state: &mut GameState,
    priority_system: &mut PrioritySystem,
    players: &[EntityId],
)
    requires
        old(priority_system).wf(),
        fits_turn_count(step_state(*old(phase), *old(turn_manager), *old(game_state), *old(priority_system))),
    ensures
        final(priority_system).wf(),
        step_state(*final(phase), *final(turn_manager), *final(game_state), *final(priority_system)) == advanced(
            step_state(*old(phase), *old(turn_manager), *old(game_state), *old(priority_system)),
            players@,
        ),
        final(game_state).turn_order@ == old(game_state).turn_order@,
        final(game_state).lands_played@ == old(game_state).lands_played@,
        final(game_state).main_phase_action_taken == old(game_state).main_phase_action_taken,
        final(game_state).state_based_actions_performed == old(game_state).state_based_actions_performed,
{
    let current_phase = *phase;
    if priority_system.has_processed_phase(current_phase, turn_manager.turn_number)
        && priority_system.all_players_passed {
        return;
    }
    if priority_system.all_players_passed && priority_system.stack_is_empty {
        let next_phase = phase.next();
        let was_cleanup = match current_phase {
            Phase::Ending(EndingStep::Cleanup) => true,
            _ => false,
        };
        let is_untap = match next_phase {
            Phase::Beginning(BeginningStep::Untap) => true,
            _ => false,
        };
        let start_new_turn = was_cleanup && is_untap;
        if start_new_turn {
            turn_manager.advance_turn();
            game_state.turn_number = turn_manager.turn_number;
            game_state.active_player = turn_manager.active_player;
        }
        *phase = next_phase;
        turn_manager.current_phase = next_phase;
        priority_system.initialize(players, turn_manager.active_player);
        priority_system.all_players_passed = false;
        if !next_phase.allows_actions() {
            priority_system.reset_passing_status();
            let n = priority_system.player_order.len();
            priority_system.pass_times(n);
        }
        game_state.priority_holder = priority_system.priority_player;
        if start_new_turn {
            priority_system.last_processed_phase = None;
            priority_system.last_processed_turn = turn_manager.turn_number;
        }
    }
}

/// The step state after `k` attempts to move on.
pub open spec fn advanced_times(s: StepState, players: Seq<EntityId>, k: nat) -> StepState
    decreases k,
{
    if k == 0 {
        s
    } else {
        advanced(advanced_times(s, players, (k - 1) as nat), players)
    }
}

/// The step state after the transition step with `events` requests to move
/// on: one attempt per request; without requests, when the game may leave
/// the step, it moves on and the step it left is marked as processed for the
/// turn it is now in.
pub open spec fn transition(s: StepState, events: nat, players: Seq<EntityId>) -> StepState {
    if events > 0 {
        advanced_times(s, players, events)
    } else if can_advance(s) {
        let t = advanced(s, players);
        StepState {
            priority: PriorityView {
                last_processed_phase: Some(s.phase),
                last_processed_turn: t.turn_number,
                ..t.priority
            },
            ..t
        }
    } else {
        s
    }
}

/// Handles `events` requests to move to the next step, and moves on by
/// itself when no request came but every player has passed with an empty
/// stack; see `transition`.
pub fn phase_transition_system(
    phase: &mut Phase,
    turn_manager: &mut TurnManager,
    game_state: &mut GameState,
    priority_system: &mut PrioritySystem,
    events: usize,
    players: &[EntityId],
)
    requires
        old(priority_system).wf(),
        forall|j: nat| (j < events || j == 0) ==> #[trigger] fits_turn_count(
            advanced_times(step_state(*old(phase), *old(turn_manager), *old(game_state), *old(priority_system)), players@, j),
        ),
    ensures
        final(priority_system).wf(),
        step_state(*final(phase), *final(turn_manager), *final(game_state), *final(priority_system)) == transition(
            step_state(*old(phase), *old(turn_manager), *old(game_state), *old(priority_system)),
            events as nat,
            players@,
        ),
        final(game_state).turn_order@ == old(game_state).turn_order@,
        final(game_state).lands_played@ == old(game_state).lands_played@,
        final(game_state).main_phase_action_taken == old(game_state).main_phase_action_taken,
        final(game_state).state_based_actions_performed == old(game_state).state_based_actions_performed,
{
    let ghost s0 = step_state(*old(phase), *old(turn_manager), *old(game_state), *old(priority_system));
    let mut k: usize = 0;
    while k < events
        invariant
            priority_system.wf(),
            k <= events,
            forall|j: nat| (j < events || j == 0) ==> #[trigger] fits_turn_count(advanced_times(s0, players@, j)),
            step_state(*phase, *turn_manager, *game_state, *priority_system) == advanced_times(s0, players@, k as nat),
            game_state.turn_order@ == old(game_state).turn_order@,
            game_state.lands_played@ == old(game_state).lands_played@,
            game_state.main_phase_action_taken == old(game_state).main_phase_action_taken,
            game_state.state_based_actions_performed == old(game_state).state_based_actions_performed,
        decreases events - k,
    {
        assert(fits_turn_count(advanced_times(s0, players@, k as nat)));
        advance_phase(phase, turn_manager, game_state, priority_system, players);
        k = k + 1;
    }
    if events == 0 && priority_system.all_players_passed {
        let current_phase = *phase;
        if priority_system.stack_is_empty && !priority_system.has_processed_phase(current_phase, turn_manager.turn_number) {
            assert(fits_turn_count(advanced_times(s0, players@, 0)));
            advance_phase(phase, turn_manager, game_state, priority_system, players);
            priority_system.mark_phase_processed(current_phase, turn_manager.turn_number);
        }
    }
}

} // verus!
