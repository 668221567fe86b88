//! Priority: which player may act, passing in turn order, and when a round
//! of passing is complete.

use vstd::prelude::*;
use std::time::{Duration, Instant};
use vstd::arithmetic::div_mod::{lemma_add_mod_noop, lemma_mod_add_multiples_vanish, lemma_mod_bound, lemma_small_mod};
use crate::clock::{instant_after, now};
use crate::entity::{EntityId, EntityMap, all_true, first_index_of, placeholder_entity, vec_position, vec_push_unique, vec_remove_all};
use crate::game::{GameStack, GameState};
use crate::phase::Phase;

verus! {

/// A player passes priority.
#[derive(Clone, Copy, PartialEq, Eq, Structural, Debug)]
pub struct PassPriorityEvent {
    pub player: EntityId,
}

/// The top item of the stack should resolve.
#[derive(Clone, Copy, PartialEq, Eq, Structural, Debug)]
pub struct ResolveStackItemEvent {
    pub item: EntityId,
}

/// The game should move to the next step.
#[derive(Clone, Copy, PartialEq, Eq, Structural, Debug)]
pub struct NextPhaseEvent;

/// Reasons a spell or ability can be countered.
#[derive(Clone, Copy, PartialEq, Eq, Structural, Debug)]
pub enum CounterReason {
    CounterSpell,
    InvalidTargets,
    RulesBased,
}

/// A spell or ability was countered.
#[derive(Clone, Copy, PartialEq, Eq, Structural, Debug)]
pub struct EffectCounteredEvent {
    pub item: EntityId,
    pub reason: CounterReason,
}

/// Priority tracking.
pub struct PrioritySystem {
    /// The player whose turn it is.
    pub active_player: EntityId,
    /// The player who currently has priority.
    pub priority_player: EntityId,
    /// Whether each player has passed priority this round.
    pub has_priority_passed: EntityMap<bool>,
    /// Whether all players have passed priority in succession.
    pub all_players_passed: bool,
    /// Player order for priority passing.
    pub player_order: Vec<EntityId>,
    /// Current index in the player order.
    pub priority_index: usize,
    /// Whether the stack is currently empty.
    pub stack_is_empty: bool,
    /// Current phase and step.
    pub current_phase: Phase,
    /// Whether a response to a triggered ability or similar is awaited.
    pub waiting_for_response: bool,
    /// Optional deadline for responses.
    pub response_timeout: Option<Instant>,
    /// Players who must make simultaneous decisions.
    pub simultaneous_decision_players: Vec<EntityId>,
    /// The last phase for which a full round of priority was completed.
    pub last_processed_phase: Option<Phase>,
    /// The turn of `last_processed_phase`.
    pub last_processed_turn: u32,
    /// Time limits for simultaneous decisions.
    pub decision_timeouts: EntityMap<Duration>,
}

/// The abstract state of priority tracking.
pub struct PriorityView {
    pub active_player: EntityId,
    pub priority_player: EntityId,
    pub passed: Map<EntityId, bool>,
    pub all_players_passed: bool,
    pub player_order: Seq<EntityId>,
    pub priority_index: usize,
    pub stack_is_empty: bool,
    pub current_phase: Phase,
    pub waiting_for_response: bool,
    pub response_timeout: Option<Instant>,
    pub simultaneous_decision_players: Seq<EntityId>,
    pub last_processed_phase: Option<Phase>,
    pub last_processed_turn: u32,
    pub decision_timeouts: Map<EntityId, Duration>,
}

impl View for PrioritySystem {
    type V = PriorityView;

    open spec fn view(&self) -> PriorityView {
        PriorityView {
            active_player: self.active_player,
            priority_player: self.priority_player,
            passed: self.has_priority_passed@,
            all_players_passed: self.all_players_passed,
            player_order: self.player_order@,
            priority_index: self.priority_index,
            stack_is_empty: self.stack_is_empty,
            current_phase: self.current_phase,
            waiting_for_response: self.waiting_for_response,
            response_timeout: self.response_timeout,
            simultaneous_decision_players: self.simultaneous_decision_players@,
            last_processed_phase: self.last_processed_phase,
            last_processed_turn: self.last_processed_turn,
            decision_timeouts: self.decision_timeouts@,
        }
    }
}

/// Every player of `players` marked as not having passed.
pub open spec fn unpassed(players: Seq<EntityId>) -> Map<EntityId, bool> {
    Map::new(|k: EntityId| players.contains(k), |k: EntityId| false)
}

/// The first position of `active` in `players`, or 0 when it is absent.
pub open spec fn start_index(players: Seq<EntityId>, active: EntityId) -> int {
    match first_index_of(players, active) {
        Some(i) => i as int,
        None => 0,
    }
}

/// `players` in turn order beginning at position `k` and wrapping around.
pub open spec fn rotated(players: Seq<EntityId>, k: int) -> Seq<EntityId> {
    Seq::new(players.len(), |i: int| players[(k + i) % (players.len() as int)])
}

/// Priority tracking after `initialize`: the order starts with the active
/// player, who holds priority at index 0; nobody has passed and no response
/// or simultaneous decision is pending.
pub open spec fn after_initialize(v: PriorityView, players: Seq<EntityId>, active: EntityId) -> PriorityView {
    PriorityView {
        passed: unpassed(players),
        active_player: active,
        priority_player: active,
        player_order: rotated(players, start_index(players, active)),
        priority_index: 0,
        all_players_passed: false,
        waiting_for_response: false,
        response_timeout: None,
        simultaneous_decision_players: Seq::empty(),
        decision_timeouts: Map::empty(),
        ..v
    }
}

/// Priority tracking after the current player passes: the player is marked as
/// passed, the round is complete once every tracked player has passed, and
/// priority moves to the next player in order.
pub open spec fn after_pass(v: PriorityView) -> PriorityView {
    if v.player_order.len() == 0 {
        v
    } else {
        let passed = v.passed.insert(v.priority_player, true);
        let idx = ((v.priority_index + 1) % (v.player_order.len() as int)) as usize;
        PriorityView {
            passed,
            all_players_passed: v.all_players_passed || all_true(passed),
            priority_index: idx,
            priority_player: v.player_order[idx as int],
            ..v
        }
    }
}

/// Priority tracking after `k` passes in a row.
pub open spec fn passes(v: PriorityView, k: nat) -> PriorityView
    decreases k,
{
    if k == 0 {
        v
    } else {
        after_pass(passes(v, (k - 1) as nat))
    }
}

/// Priority tracking after something was put on the stack: set up again as
/// by `initialize`, with the stack not empty.
pub open spec fn after_stack_action(v: PriorityView, players: Seq<EntityId>, active: EntityId) -> PriorityView {
    PriorityView { all_players_passed: false, stack_is_empty: false, ..after_initialize(v, players, active) }
}

/// Priority tracking after the stack is recorded as empty or not; an empty
/// stack clears the all-passed flag.
pub open spec fn after_stack_status(v: PriorityView, is_empty: bool) -> PriorityView {
    PriorityView {
        stack_is_empty: is_empty,
        all_players_passed: if is_empty { false } else { v.all_players_passed },
        ..v
    }
}

/// Priority tracking after every tracked player is marked as not passed.
pub open spec fn after_reset_passing(v: PriorityView) -> PriorityView {
    PriorityView {
        passed: Map::new(|k: EntityId| v.passed.dom().contains(k), |k: EntityId| false),
        all_players_passed: false,
        ..v
    }
}

/// `phase` of turn `turn` was already processed.
pub open spec fn processed(v: PriorityView, phase: Phase, turn: u32) -> bool {
    v.last_processed_phase == Some(phase) && v.last_processed_turn == turn
}

impl PrioritySystem {
    /// The maps are well formed.
    pub open spec fn wf(&self) -> bool {
        self.has_priority_passed.wf() && self.decision_timeouts.wf()
    }

    /// A builder for priority tracking.
    pub fn builder() -> (b: PrioritySystemBuilder)
        ensures
            b.wf(),
            b.active_player.0 == 0x1_FFFF_FFFFu64,
            b.priority_player.0 == 0x1_FFFF_FFFFu64,
            b.has_priority_passed@ == Map::<EntityId, bool>::empty(),
            !b.all_players_passed,
            b.player_order@.len() == 0,
            b.priority_index == 0,
            b.stack_is_empty,
            b.current_phase == Phase::Beginning(crate::phase::BeginningStep::Untap),
            !b.waiting_for_response,
            b.response_timeout is None,
            b.simultaneous_decision_players@.len() == 0,
            b.last_processed_phase is None,
            b.last_processed_turn == 0,
            b.decision_timeouts@ == Map::<EntityId, Duration>::empty(),
    {
        PrioritySystemBuilder::new()
    }

    /// Resets `has_priority_passed` to `players`, none of whom has passed.
    fn reset_passed_to(&mut self, players: &[EntityId])
        requires
            old(self).wf(),
        ensures
            final(self).wf(),
            final(self)@ == (PriorityView { passed: unpassed(players@), ..old(self)@ }),
    {
        self.has_priority_passed.clear();
        assert(unpassed(players@.take(0)) =~= Map::<EntityId, bool>::empty());
        let mut i: usize = 0;
        while i < players.len()
            invariant
                self.wf(),
                i <= players@.len(),
                self@ == (PriorityView { passed: unpassed(players@.take(i as int)), ..old(self)@ }),
            decreases players@.len() - i,
        {
            self.has_priority_passed.insert(players[i], false);
            proof {
                let a = players@.take(i as int);
                let b = players@.take(i + 1);
                assert(b =~= a.push(players@[i as int]));
                assert forall|k: EntityId| #![auto] b.contains(k) == (a.contains(k) || k == players@[i as int]) by {
                    if a.contains(k) {
                        let j = choose|j: int| 0 <= j < a.len() && a[j] == k;
                        assert(b[j] == k);
                    }
                    if k == players@[i as int] {
                        assert(b[i as int] == k);
                    }
                    if b.contains(k) && k != players@[i as int] {
                        let j = choose|j: int| 0 <= j < b.len() && b[j] == k;
                        assert(a[j] == k);
                    }
                }
                assert(unpassed(players@.take(i + 1)) =~= unpassed(players@.take(i as int)).insert(players@[i as int], false));
            }
            i = i + 1;
        }
        assert(players@.take(players@.len() as int) =~= players@);
    }

    /// The players of `players` in turn order, beginning with the first
    /// occurrence of `active` (or with the first player when it is absent).
    fn order_from(players: &[EntityId], active: EntityId) -> (order: Vec<EntityId>)
        ensures
            order@ == rotated(players@, start_index(players@, active)),
    {
        let n = players.len();
        let k: usize = match crate::entity::slice_position(players, active) {
            Some(i) => i,
            None => 0,
        };
        assert(n > 0 ==> k < n);
        let mut order: Vec<EntityId> = Vec::new();
        let mut i: usize = 0;
        while i < n
            invariant
                n == players@.len(),
                k == start_index(players@, active),
                n > 0 ==> k < n,
                i <= n,
                order@.len() == i,
                forall|j: int| 0 <= j < i ==> #[trigger] order@[j] == players@[(k + j) % (n as int)],
            decreases n - i,
        {
            let idx = if i < n - k { k + i } else { i - (n - k) };
            proof {
                lemma_wrap(k as int, i as int, n as int);
            }
            order.push(players[idx]);
            i = i + 1;
        }
        assert(order@ =~= rotated(players@, start_index(players@, active)));
        order
    }

    /// Sets up priority for `players` in turn order, starting with
    /// `active_player`: the order is rotated so that the active player comes
    /// first and holds priority, nobody has passed, and pending responses and
    /// simultaneous decisions are cleared.
    pub fn initialize(&mut self, players: &[EntityId], active_player: EntityId)
        requires
            old(self).wf(),
        ensures
            final(self).wf(),
            final(self)@ == after_initialize(old(self)@, players@, active_player),
    {
        self.reset_passed_to(players);
        self.active_player = active_player;
        self.priority_player = active_player;
        self.player_order = Self::order_from(players, active_player);
        self.priority_index = 0;
        self.all_players_passed = false;
        self.waiting_for_response = false;
        self.response_timeout = None;
        self.simultaneous_decision_players.clear();
        self.decision_timeouts.clear();
    }

    /// Passes priority from the current player to the next in turn order.
    pub fn pass_priority(&mut self)
        requires
            old(self).wf(),
            old(self).priority_index < usize::MAX,
        ensures
            final(self).wf(),
            final(self)@ == after_pass(old(self)@),
            old(self).player_order@.len() > 0 ==> final(self).priority_index < final(self).player_order@.len(),
    {
        if self.player_order.len() == 0 {
            return;
        }
        self.has_priority_passed.insert(self.priority_player, true);
        if self.has_priority_passed.all_values_true() {
            self.all_players_passed = true;
        }
        self.priority_index = (self.priority_index + 1) % self.player_order.len();
        self.priority_player = self.player_order[self.priority_index];
    }

    /// Passes priority `k` times in a row.
    pub(crate) fn pass_times(&mut self, k: usize)
        requires
            old(self).wf(),
            old(self).priority_index < usize::MAX,
        ensures
            final(self).wf(),
            final(self).priority_index < usize::MAX,
            final(self)@ == passes(old(self)@, k as nat),
    {
        let mut i: usize = 0;
        while i < k
            invariant
                self.wf(),
                self.priority_index < usize::MAX,
                i <= k,
                self@ == passes(old(self)@, i as nat),
            decreases k - i,
        {
            let ghost n = self.player_order@.len();
            self.pass_priority();
            assert(self.priority_index < usize::MAX) by {
                if n > 0 {
                    assert(self.player_order@.len() == self.player_order.len());
                }
            }
            i = i + 1;
        }
    }

    /// Priority after something was put on the stack: set up again for
    /// `players` with `active_player` first, and the stack not empty.
    pub fn reset_after_stack_action(&mut self, players: &[EntityId], active_player: EntityId)
        requires
            old(self).wf(),
        ensures
            final(self).wf(),
            final(self)@ == after_stack_action(old(self)@, players@, active_player),
    {
        self.initialize(players, active_player);
        self.all_players_passed = false;
        self.stack_is_empty = false;
    }

    /// Records whether the stack is empty; an empty stack clears the
    /// all-passed flag.
    pub fn set_stack_empty(&mut self, is_empty: bool)
        ensures
            final(self)@ == after_stack_status(old(self)@, is_empty),
            final(self).wf() == old(self).wf(),
    {
        self.stack_is_empty = is_empty;
        if is_empty {
            self.all_players_passed = false;
        }
    }


    /// Marks each of `players` as not having passed, keeping the others.
    fn mark_unpassed(&mut self, players: &[EntityId])
        requires
            old(self).wf(),
        ensures
            final(self).wf(),
            final(self)@ == (PriorityView {
                passed: old(self)@.passed.union_prefer_right(unpassed(players@)),
                ..old(self)@
            }),
    {
        assert(old(self)@.passed.union_prefer_right(unpassed(players@.take(0))) =~= old(self)@.passed);
        let mut i: usize = 0;
        while i < players.len()
            invariant
                self.wf(),
                i <= players@.len(),
                self@ == (PriorityView {
                    passed: old(self)@.passed.union_prefer_right(unpassed(players@.take(i as int))),
                    ..old(self)@
                }),
            decreases players@.len() - i,
        {
            self.has_priority_passed.insert(players[i], false);
            proof {
                lemma_unpassed_push(players@, i as int);
                assert(old(self)@.passed.union_prefer_right(unpassed(players@.take(i + 1))) =~= old(self)@.passed.union_prefer_right(
                    unpassed(players@.take(i as int)),
                ).insert(players@[i as int], false));
            }
            i = i + 1;
        }
        assert(players@.take(players@.len() as int) =~= players@);
    }


    /// Whether `current_phase` of turn `turn_number` was already processed.
    pub fn has_processed_phase(&self, current_phase: Phase, turn_number: u32) -> (b: bool)
        ensures
            b == (self.last_processed_phase == Some(current_phase) && self.last_processed_turn == turn_number),
    {
        match self.last_processed_phase {
            Some(p) => p == current_phase && self.last_processed_turn == turn_number,
            None => false,
        }
    }

    /// Marks `current_phase` of turn `turn_number` as processed.
    pub fn mark_phase_processed(&mut self, current_phase: Phase, turn_number: u32)
        ensures
            final(self)@ == (PriorityView {
                last_processed_phase: Some(current_phase),
                last_processed_turn: turn_number,
                ..old(self)@
            }),
            final(self).wf() == old(self).wf(),
    {
        self.last_processed_phase = Some(current_phase);
        self.last_processed_turn = turn_number;
    }

    /// Whether `player` has priority.
    pub fn has_priority(&self, player: EntityId) -> (b: bool)
        ensures
            b == (self.priority_player == player),
    {
        self.priority_player == player
    }

    /// Marks every tracked player as not having passed.
    pub fn reset_passing_status(&mut self)
        requires
            old(self).wf(),
        ensures
            final(self).wf(),
            final(self)@ == (PriorityView {
                passed: Map::new(|k: EntityId| old(self)@.passed.dom().contains(k), |k: EntityId| false),
                all_players_passed: false,
                ..old(self)@
            }),
    {
        self.has_priority_passed.set_all(false);
        self.all_players_passed = false;
    }

    /// Whether a full round of priority passing is complete: every tracked
    /// player has passed.
    pub fn priority_round_complete(&self) -> (b: bool)
        requires
            self.wf(),
        ensures
            b == all_true(self@.passed),
    {
        self.has_priority_passed.all_values_true()
    }


    /// Whether `player` has passed this round (untracked players have not).
    pub fn has_passed(&self, player: EntityId) -> (b: bool)
        requires
            self.wf(),
        ensures
            b == (self@.passed.dom().contains(player) && self@.passed[player]),
    {
        match self.has_priority_passed.get(player) {
            Some(p) => *p,
            None => false,
        }
    }

    /// Sets the time limit for `player`'s decision.
    pub fn set_decision_timeout(&mut self, player: EntityId, duration: Duration)
        requires
            old(self).wf(),
        ensures
            final(self).wf(),
            final(self)@ == (PriorityView {
                decision_timeouts: old(self)@.decision_timeouts.insert(player, duration),
                ..old(self)@
            }),
    {
        self.decision_timeouts.insert(player, duration);
    }

    /// Adds `player` to the players making simultaneous decisions.
    pub fn add_simultaneous_decision_player(&mut self, player: EntityId)
        ensures
            final(self)@ == (PriorityView {
                simultaneous_decision_players: if old(self)@.simultaneous_decision_players.contains(player) {
                    old(self)@.simultaneous_decision_players
                } else {
                    old(self)@.simultaneous_decision_players.push(player)
                },
                ..old(self)@
            }),
            final(self).wf() == old(self).wf(),
    {
        vec_push_unique(&mut self.simultaneous_decision_players, player);
    }

    /// Removes `player` from the players making simultaneous decisions.
    pub fn remove_simultaneous_decision_player(&mut self, player: EntityId)
        ensures
            final(self)@ == (PriorityView {
                simultaneous_decision_players: old(self)@.simultaneous_decision_players.filter(|p: EntityId| p != player),
                ..old(self)@
            }),
            final(self).wf() == old(self).wf(),
    {
        vec_remove_all(&mut self.simultaneous_decision_players, player);
    }
}

/// What one run of the priority step asks for.
#[derive(Clone, Copy, PartialEq, Eq, Structural, Debug)]
pub struct PriorityActions {
    /// Move on to the next step.
    pub next_phase: Option<NextPhaseEvent>,
    /// The response deadline had passed, and priority was passed for the
    /// player who held it.
    pub timed_out: bool,
}

/// The priority step up to the check of the response deadline: the stack
/// status and the step are recorded; when everyone has passed with an empty
/// stack the step is marked as processed; in steps that pass automatically
/// on an empty stack, a step not yet processed gets a full round of passes.
pub open spec fn priority_step_before_deadline(v: PriorityView, stack_empty: bool, phase: Phase, turn: u32) -> PriorityView {
    let a = PriorityView { current_phase: phase, ..after_stack_status(v, stack_empty) };
    let b = if a.all_players_passed && stack_empty {
        PriorityView { last_processed_phase: Some(phase), last_processed_turn: turn, ..a }
    } else {
        a
    };
    if phase.spec_auto_pass_if_empty() && stack_empty && !processed(b, phase, turn) {
        passes(after_reset_passing(b), b.player_order.len())
    } else {
        b
    }
}

/// Priority tracking after one run of the priority step; `timed_out` says
/// whether the response deadline was found to have passed, in which case the
/// wait ends and priority passes on.
pub open spec fn priority_step(v: PriorityView, stack_empty: bool, phase: Phase, turn: u32, timed_out: bool) -> PriorityView {
    let c = priority_step_before_deadline(v, stack_empty, phase, turn);
    if timed_out {
        after_pass(PriorityView { waiting_for_response: false, ..c })
    } else {
        c
    }
}

/// One run of the priority step in `phase` of turn `turn_number`.
///
/// The stack status, the step and the priority holder of the game state are
/// brought up to date. When every player has passed and the stack is empty,
/// the step is marked as processed and the game moves on. In steps that pass
/// automatically on an empty stack, a step not yet processed gets a full
/// round of passes. While a response is awaited and its deadline has passed,
/// the wait ends and priority passes on; whether the deadline has passed is
/// read from the clock.
pub fn priority_system(
    priority: &mut PrioritySystem,
    game_state: &mut GameState,
    stack: &GameStack,
    phase: Phase,
    turn_number: u32,
) -> (r: PriorityActions)
    requires
        old(priority).wf(),
        old(priority).priority_index < usize::MAX,
    ensures
        final(priority).wf(),
        final(priority)@ == priority_step(old(priority)@, stack.items@.len() == 0, phase, turn_number, r.timed_out),
        r.next_phase == (if after_stack_status(old(priority)@, stack.items@.len() == 0).all_players_passed
            && stack.items@.len() == 0 {
            Some(NextPhaseEvent)
        } else {
            None
        }),
        r.timed_out ==> old(priority).waiting_for_response && old(priority).response_timeout is Some,
        final(game_state).priority_holder == old(priority).priority_player,
        final(game_state).active_player == old(game_state).active_player,
        final(game_state).turn_number == old(game_state).turn_number,
        final(game_state).turn_order@ == old(game_state).turn_order@,
        final(game_state).main_phase_action_taken == old(game_state).main_phase_action_taken,
        final(game_state).state_based_actions_performed == old(game_state).state_based_actions_performed,
        final(game_state).lands_played@ == old(game_state).lands_played@,
{
    let stack_empty = stack.is_empty();
    priority.set_stack_empty(stack_empty);
    game_state.priority_holder = priority.priority_player;
    priority.current_phase = phase;
    let mut next_phase = None;
    if priority.all_players_passed && stack_empty {
        priority.mark_phase_processed(phase, turn_number);
        next_phase = Some(NextPhaseEvent);
    }
    if phase.auto_pass_if_empty() && stack_empty && !priority.has_processed_phase(phase, turn_number) {
        priority.reset_passing_status();
        let n = priority.player_order.len();
        let ghost before = priority@;
        priority.pass_times(n);
        proof {
            lemma_passes_keep(before, n as nat);
        }
    }
    let mut timed_out = false;
    if priority.waiting_for_response {
        match priority.response_timeout {
            Some(deadline) => {
                if instant_after(now(), deadline) {
                    priority.waiting_for_response = false;
                    priority.pass_priority();
                    timed_out = true;
                }
            },
            None => {},
        }
    }
    PriorityActions { next_phase, timed_out }
}

/// What one run of the passing step asks for.
#[derive(Clone, Copy, PartialEq, Eq, Structural, Debug)]
pub struct PassingActions {
    /// Move on to the next step.
    pub next_phase: Option<NextPhaseEvent>,
    /// Resolve the top item of the stack.
    pub resolve: Option<ResolveStackItemEvent>,
    /// The response deadline had passed, and priority was passed for the
    /// player who held it.
    pub timed_out: bool,
}

/// Priority tracking after a pass event from `player`; events from a player
/// without priority are ignored.
pub open spec fn after_pass_event(v: PriorityView, player: EntityId) -> PriorityView {
    if player == v.priority_player {
        after_pass(PriorityView { passed: v.passed.insert(player, true), ..v })
    } else {
        v
    }
}

/// Priority tracking after a sequence of pass events, handled in order.
pub open spec fn after_pass_events(v: PriorityView, events: Seq<PassPriorityEvent>) -> PriorityView
    decreases events.len(),
{
    if events.len() == 0 {
        v
    } else {
        after_pass_event(after_pass_events(v, events.drop_last()), events.last().player)
    }
}

/// The passes of one run of the passing step, before the round is checked:
/// the events in order, then a pass for the holder if the deadline passed.
pub open spec fn passing_tally(v: PriorityView, events: Seq<PassPriorityEvent>, timed_out: bool) -> PriorityView {
    let a = after_pass_events(v, events);
    if timed_out {
        after_pass_event(a, a.priority_player)
    } else {
        a
    }
}

/// Priority tracking after one run of the passing step: when every tracked
/// player has passed, everyone of `players` is marked as not passed and,
/// with items on the stack, priority returns to the active player.
pub open spec fn passing_step(
    v: PriorityView,
    events: Seq<PassPriorityEvent>,
    stack_empty: bool,
    timed_out: bool,
    players: Seq<EntityId>,
) -> PriorityView {
    let c = after_stack_status(passing_tally(v, events, timed_out), stack_empty);
    if all_true(c.passed) {
        let d = PriorityView { passed: c.passed.union_prefer_right(unpassed(players)), ..c };
        if !stack_empty {
            PriorityView {
                priority_player: d.active_player,
                priority_index: start_index(d.player_order, d.active_player) as usize,
                ..d
            }
        } else {
            d
        }
    } else {
        c
    }
}

/// Handles the pass events of one frame in order.
///
/// A pass from the player holding priority marks that player as passed and
/// moves priority on; passes from other players are ignored. If the response
/// deadline has passed (read from the clock), the holder passes too. When
/// every tracked player has passed, an empty stack moves the game to the
/// next step and otherwise the top of the stack resolves; then everyone of
/// `players` is marked as not passed and, with items on the stack, priority
/// returns to the active player.
pub fn priority_passing_system(
    priority: &mut PrioritySystem,
    stack: &mut GameStack,
    events: &Vec<PassPriorityEvent>,
    players: &[EntityId],
) -> (r: PassingActions)
    requires
        old(priority).wf(),
        old(priority).priority_index < usize::MAX,
    ensures
        final(priority).wf(),
        final(priority)@ == passing_step(old(priority)@, events@, old(stack).items@.len() == 0, r.timed_out, players@),
        r.timed_out ==> old(priority).response_timeout is Some,
        ({
            let round = all_true(passing_tally(old(priority)@, events@, r.timed_out).passed);
            let empty = old(stack).items@.len() == 0;
            &&& r.next_phase == (if round && empty { Some(NextPhaseEvent) } else { None })
            &&& r.resolve == (if round && !empty {
                Some(ResolveStackItemEvent { item: old(stack).items@.last().entity })
            } else {
                None
            })
            &&& final(stack).resolving == (if round && !empty { true } else { old(stack).resolving })
        }),
        final(stack).items@ == old(stack).items@,
{
    let mut i: usize = 0;
    while i < events.len()
        invariant
            priority.wf(),
            priority.priority_index < usize::MAX,
            i <= events@.len(),
            priority@ == after_pass_events(old(priority)@, events@.take(i as int)),
            priority.response_timeout == old(priority).response_timeout,
        decreases events@.len() - i,
    {
        let player = events[i].player;
        proof {
            assert(events@.take(i + 1).drop_last() =~= events@.take(i as int));
        }
        if player == priority.priority_player {
            priority.has_priority_passed.insert(player, true);
            priority.pass_times(1);
            proof {
                reveal_with_fuel(passes, 2);
            }
        }
        i = i + 1;
    }
    assert(events@.take(events@.len() as int) =~= events@);
    let mut timed_out = false;
    match priority.response_timeout {
        Some(deadline) => {
            if instant_after(now(), deadline) {
                let current = priority.priority_player;
                priority.has_priority_passed.insert(current, true);
                priority.pass_times(1);
                proof {
                    reveal_with_fuel(passes, 2);
                }
                timed_out = true;
            }
        },
        None => {},
    }
    let stack_empty = stack.is_empty();
    priority.set_stack_empty(stack_empty);
    let mut next_phase = None;
    let mut resolve = None;
    if priority.priority_round_complete() {
        if priority.stack_is_empty {
            next_phase = Some(NextPhaseEvent);
        } else {
            stack.resolving = true;
            let top = stack.items[stack.items.len() - 1].entity;
            resolve = Some(ResolveStackItemEvent { item: top });
        }
        priority.mark_unpassed(players);
        if !priority.stack_is_empty {
            priority.priority_player = priority.active_player;
            priority.priority_index = match vec_position(&priority.player_order, priority.active_player) {
                Some(k) => k,
                None => 0,
            };
        }
    }
    PassingActions { next_phase, resolve, timed_out }
}

impl Default for PrioritySystem {
    fn default() -> (p: Self)
        ensures
            p.wf(),
            p.active_player.0 == 0x1_FFFF_FFFFu64,
            p.priority_player.0 == 0x1_FFFF_FFFFu64,
            p@.passed == Map::<EntityId, bool>::empty(),
            !p.all_players_passed,
            p@.player_order.len() == 0,
            p.priority_index == 0,
            p.stack_is_empty,
            p.current_phase == Phase::Beginning(crate::phase::BeginningStep::Untap),
            !p.waiting_for_response,
            p.response_timeout is None,
            p@.simultaneous_decision_players.len() == 0,
            p.last_processed_phase is None,
            p.last_processed_turn == 0,
            p@.decision_timeouts == Map::<EntityId, Duration>::empty(),
    {
        PrioritySystemBuilder::new().build()
    }
}

/// Builder for `PrioritySystem`.
pub struct PrioritySystemBuilder {
    pub active_player: EntityId,
    pub priority_player: EntityId,
    pub has_priority_passed: EntityMap<bool>,
    pub all_players_passed: bool,
    pub player_order: Vec<EntityId>,
    pub priority_index: usize,
    pub stack_is_empty: bool,
    pub current_phase: Phase,
    pub waiting_for_response: bool,
    pub response_timeout: Option<Instant>,
    pub simultaneous_decision_players: Vec<EntityId>,
    pub last_processed_phase: Option<Phase>,
    pub last_processed_turn: u32,
    pub decision_timeouts: EntityMap<Duration>,
}

impl Default for PrioritySystemBuilder {
    fn default() -> (b: Self)
        ensures
            b.wf(),
            b.active_player.0 == 0x1_FFFF_FFFFu64,
            b.priority_player.0 == 0x1_FFFF_FFFFu64,
            b.has_priority_passed@ == Map::<EntityId, bool>::empty(),
            !b.all_players_passed,
            b.player_order@.len() == 0,
            b.priority_index == 0,
            b.stack_is_empty,
            b.current_phase == Phase::Beginning(crate::phase::BeginningStep::Untap),
            !b.waiting_for_response,
            b.response_timeout is None,
            b.simultaneous_decision_players@.len() == 0,
            b.last_processed_phase is None,
            b.last_processed_turn == 0,
            b.decision_timeouts@ == Map::<EntityId, Duration>::empty(),
    {
        Self::new()
    }
}

impl PrioritySystemBuilder {
    /// The maps are well formed.
    pub open spec fn wf(&self) -> bool {
        self.has_priority_passed.wf() && self.decision_timeouts.wf()
    }

    /// A builder holding the default settings: placeholder players, nobody
    /// tracked, an empty stack, the untap step.
    pub fn new() -> (b: Self)
        ensures
            b.wf(),
            b.active_player.0 == 0x1_FFFF_FFFFu64,
            b.priority_player.0 == 0x1_FFFF_FFFFu64,
            b.has_priority_passed@ == Map::<EntityId, bool>::empty(),
            !b.all_players_passed,
            b.player_order@.len() == 0,
            b.priority_index == 0,
            b.stack_is_empty,
            b.current_phase == Phase::Beginning(crate::phase::BeginningStep::Untap),
            !b.waiting_for_response,
            b.response_timeout is None,
            b.simultaneous_decision_players@.len() == 0,
            b.last_processed_phase is None,
            b.last_processed_turn == 0,
            b.decision_timeouts@ == Map::<EntityId, Duration>::empty(),
    {
        PrioritySystemBuilder {
            active_player: placeholder_entity(),
            priority_player: placeholder_entity(),
            has_priority_passed: EntityMap::new(),
            all_players_passed: false,
            player_order: Vec::new(),
            priority_index: 0,
            stack_is_empty: true,
            current_phase: Phase::default(),
            waiting_for_response: false,
            response_timeout: None,
            simultaneous_decision_players: Vec::new(),
            last_processed_phase: None,
            last_processed_turn: 0,
            decision_timeouts: EntityMap::new(),
        }
    }

    /// Sets the active player.
    pub fn active_player(self, active_player: EntityId) -> (b: Self)
        ensures
            b == (PrioritySystemBuilder { active_player, ..self }),
    {
        PrioritySystemBuilder { active_player, ..self }
    }

    /// Sets the player who has priority.
    pub fn priority_player(self, priority_player: EntityId) -> (b: Self)
        ensures
            b == (PrioritySystemBuilder { priority_player, ..self }),
    {
        PrioritySystemBuilder { priority_player, ..self }
    }

    /// Sets the passing status of every player.
    pub fn has_priority_passed(self, has_priority_passed: EntityMap<bool>) -> (b: Self)
        ensures
            b == (PrioritySystemBuilder { has_priority_passed, ..self }),
    {
        PrioritySystemBuilder { has_priority_passed, ..self }
    }

    /// Sets whether all players have passed.
    pub fn all_players_passed(self, all_players_passed: bool) -> (b: Self)
        ensures
            b == (PrioritySystemBuilder { all_players_passed, ..self }),
    {
        PrioritySystemBuilder { all_players_passed, ..self }
    }

    /// Sets the player order.
    pub fn player_order(self, player_order: Vec<EntityId>) -> (b: Self)
        ensures
            b == (PrioritySystemBuilder { player_order, ..self }),
    {
        PrioritySystemBuilder { player_order, ..self }
    }

    /// Sets the index in the player order.
    pub fn priority_index(self, priority_index: usize) -> (b: Self)
        ensures
            b == (PrioritySystemBuilder { priority_index, ..self }),
    {
        PrioritySystemBuilder { priority_index, ..self }
    }

    /// Sets whether the stack is empty.
    pub fn stack_is_empty(self, stack_is_empty: bool) -> (b: Self)
        ensures
            b == (PrioritySystemBuilder { stack_is_empty, ..self }),
    {
        PrioritySystemBuilder { stack_is_empty, ..self }
    }

    /// Sets the current phase.
    pub fn current_phase(self, current_phase: Phase) -> (b: Self)
        ensures
            b == (PrioritySystemBuilder { current_phase, ..self }),
    {
        PrioritySystemBuilder { current_phase, ..self }
    }

    /// Sets whether a response is awaited.
    pub fn waiting_for_response(self, waiting_for_response: bool) -> (b: Self)
        ensures
            b == (PrioritySystemBuilder { waiting_for_response, ..self }),
    {
        PrioritySystemBuilder { waiting_for_response, ..self }
    }

    /// Sets the deadline for responses.
    pub fn response_timeout(self, response_timeout: Option<Instant>) -> (b: Self)
        ensures
            b == (PrioritySystemBuilder { response_timeout, ..self }),
    {
        PrioritySystemBuilder { response_timeout, ..self }
    }

    /// Sets the players making simultaneous decisions.
    pub fn simultaneous_decision_players(self, players: Vec<EntityId>) -> (b: Self)
        ensures
            b == (PrioritySystemBuilder { simultaneous_decision_players: players, ..self }),
    {
        PrioritySystemBuilder { simultaneous_decision_players: players, ..self }
    }

    /// Sets the last processed phase.
    pub fn last_processed_phase(self, phase: Option<Phase>) -> (b: Self)
        ensures
            b == (PrioritySystemBuilder { last_processed_phase: phase, ..self }),
    {
        PrioritySystemBuilder { last_processed_phase: phase, ..self }
    }

    /// Sets the turn of the last processed phase.
    pub fn last_processed_turn(self, turn_number: u32) -> (b: Self)
        ensures
            b == (PrioritySystemBuilder { last_processed_turn: turn_number, ..self }),
    {
        PrioritySystemBuilder { last_processed_turn: turn_number, ..self }
    }

    /// Sets the decision time limits.
    pub fn decision_timeouts(self, timeouts: EntityMap<Duration>) -> (b: Self)
        ensures
            b == (PrioritySystemBuilder { decision_timeouts: timeouts, ..self }),
    {
        PrioritySystemBuilder { decision_timeouts: timeouts, ..self }
    }

    /// The priority tracking with the settings of the builder.
    pub fn build(self) -> (p: PrioritySystem)
        ensures
            p.active_player == self.active_player,
            p.priority_player == self.priority_player,
            p.has_priority_passed == self.has_priority_passed,
            p.all_players_passed == self.all_players_passed,
            p.player_order == self.player_order,
            p.priority_index == self.priority_index,
            p.stack_is_empty == self.stack_is_empty,
            p.current_phase == self.current_phase,
            p.waiting_for_response == self.waiting_for_response,
            p.response_timeout == self.response_timeout,
            p.simultaneous_decision_players == self.simultaneous_decision_players,
            p.last_processed_phase == self.last_processed_phase,
            p.last_processed_turn == self.last_processed_turn,
            p.decision_timeouts == self.decision_timeouts,
    {
        PrioritySystem {
            active_player: self.active_player,
            priority_player: self.priority_player,
            has_priority_passed: self.has_priority_passed,
            all_players_passed: self.all_players_passed,
            player_order: self.player_order,
            priority_index: self.priority_index,
            stack_is_empty: self.stack_is_empty,
            current_phase: self.current_phase,
            waiting_for_response: self.waiting_for_response,
            response_timeout: self.response_timeout,
            simultaneous_decision_players: self.simultaneous_decision_players,
            last_processed_phase: self.last_processed_phase,
            last_processed_turn: self.last_processed_turn,
            decision_timeouts: self.decision_timeouts,
        }
    }
}


/// Passing priority changes only who has passed, the all-passed flag and
/// who holds priority.
pub proof fn lemma_passes_keep(v: PriorityView, k: nat)
    ensures
        passes(v, k).player_order == v.player_order,
        passes(v, k).active_player == v.active_player,
        passes(v, k).stack_is_empty == v.stack_is_empty,
        passes(v, k).current_phase == v.current_phase,
        passes(v, k).waiting_for_response == v.waiting_for_response,
        passes(v, k).response_timeout == v.response_timeout,
        passes(v, k).simultaneous_decision_players == v.simultaneous_decision_players,
        passes(v, k).last_processed_phase == v.last_processed_phase,
        passes(v, k).last_processed_turn == v.last_processed_turn,
        passes(v, k).decision_timeouts == v.decision_timeouts,
    decreases k,
{
    if k > 0 {
        lemma_passes_keep(v, (k - 1) as nat);
    }
}

/// `(k + i) % n` for positions `k` and `i` below `n`.
proof fn lemma_wrap(k: int, i: int, n: int)
    requires
        0 <= k < n,
        0 <= i < n,
    ensures
        (k + i) % n == if k + i < n { k + i } else { k + i - n },
{
    if k + i < n {
        lemma_small_mod((k + i) as nat, n as nat);
    } else {
        lemma_mod_add_multiples_vanish(k + i - n, n);
        lemma_small_mod((k + i - n) as nat, n as nat);
    }
}

/// Adding one player to the prefix marks one more player as not passed.
proof fn lemma_unpassed_push(players: Seq<EntityId>, i: int)
    requires
        0 <= i < players.len(),
    ensures
        unpassed(players.take(i + 1)) == unpassed(players.take(i)).insert(players[i], false),
{
    let a = players.take(i);
    let b = players.take(i + 1);
    assert(b =~= a.push(players[i]));
    assert forall|k: EntityId| #![auto] b.contains(k) == (a.contains(k) || k == players[i]) by {
        if a.contains(k) {
            let j = choose|j: int| 0 <= j < a.len() && a[j] == k;
            assert(b[j] == k);
        }
        if k == players[i] {
            assert(b[i] == k);
        }
        if b.contains(k) && k != players[i] {
            let j = choose|j: int| 0 <= j < b.len() && b[j] == k;
            assert(a[j] == k);
        }
    }
    assert(unpassed(b) =~= unpassed(a).insert(players[i], false));
}

/// The rotated order of distinct players holds each of them exactly once and
/// begins with the player at position `k`.
proof fn lemma_rotated(players: Seq<EntityId>, k: int)
    requires
        players.no_duplicates(),
        0 <= k < players.len(),
    ensures
        rotated(players, k).len() == players.len(),
        rotated(players, k).no_duplicates(),
        rotated(players, k)[0] == players[k],
        forall|j: int| 0 <= j < players.len() ==> players.contains(#[trigger] rotated(players, k)[j]),
        forall|key: EntityId| players.contains(key) ==> exists|j: int| 0 <= j < players.len() && #[trigger] rotated(players, k)[j] == key,
{
    let n = players.len() as int;
    let r = rotated(players, k);
    lemma_wrap(k, 0, n);
    assert forall|i: int, j: int| 0 <= i < n && 0 <= j < n && i != j implies r[i] != r[j] by {
        lemma_wrap(k, i, n);
        lemma_wrap(k, j, n);
    }
    assert forall|j: int| 0 <= j < n implies players.contains(#[trigger] r[j]) by {
        lemma_wrap(k, j, n);
    }
    assert forall|key: EntityId| players.contains(key) implies exists|j: int| 0 <= j < n && #[trigger] r[j] == key by {
        let t = choose|t: int| 0 <= t < n && players[t] == key;
        let j = if t >= k { t - k } else { t + n - k };
        lemma_wrap(k, j, n);
        assert(r[j] == key);
    }
}

/// `(m % n + 1) % n == (m + 1) % n`.
proof fn lemma_mod_step(m: int, n: int)
    requires
        m >= 0,
        n > 0,
    ensures
        ((m % n) + 1) % n == (m + 1) % n,
{
    lemma_add_mod_noop(m, 1, n);
    lemma_mod_bound(m, n);
    if n > 1 {
        lemma_small_mod(1, n as nat);
    } else {
        lemma_mod_bound(1, n);
        lemma_mod_bound((m % n) + 1, n);
        lemma_mod_bound(m + 1, n);
    }
}

/// What holds after `m` passes since priority was set up with `order`.
spec fn rotation_state(w: PriorityView, order: Seq<EntityId>, players: Seq<EntityId>, m: nat) -> bool {
    let n = order.len() as int;
    &&& w.player_order == order
    &&& w.priority_index as int == (m as int) % n
    &&& w.priority_player == order[(m as int) % n]
    &&& w.passed.dom() == players.to_set()
    &&& forall|j: int| 0 <= j < n ==> #[trigger] w.passed[order[j]] == (j < m)
    &&& w.all_players_passed == (m >= n)
}

/// One pass moves priority one place on and marks one more player.
proof fn lemma_rotation_step(w: PriorityView, players: Seq<EntityId>, k: int, m: nat)
    requires
        players.no_duplicates(),
        0 <= k < players.len(),
        players.len() <= usize::MAX,
        rotation_state(w, rotated(players, k), players, m),
    ensures
        rotation_state(after_pass(w), rotated(players, k), players, m + 1),
{
    let order = rotated(players, k);
    let n = players.len() as int;
    lemma_rotated(players, k);
    lemma_mod_bound(m as int, n);
    lemma_mod_step(m as int, n);
    lemma_mod_bound(m as int + 1, n);
    let p = (m as int) % n;
    let u = after_pass(w);
    assert(u.priority_index as int == (m as int + 1) % n);
    assert(p <= m) by {
        if m < n {
            lemma_small_mod(m, n as nat);
        }
    }
    assert(m < n ==> p == m) by {
        if m < n {
            lemma_small_mod(m, n as nat);
        }
    }
    assert forall|j: int| 0 <= j < n implies #[trigger] u.passed[order[j]] == (j < m + 1) by {
        if j != p {
            assert(order[j] != order[p]);
        }
    }
    assert(players.contains(order[p]));
    assert(u.passed.dom() =~= players.to_set());
    if m + 1 >= n {
        assert forall|key: EntityId| u.passed.dom().contains(key) implies #[trigger] u.passed[key] by {
            assert(players.contains(key));
            let j = choose|j: int| 0 <= j < n && #[trigger] order[j] == key;
            assert(u.passed[order[j]] == (j < m + 1));
        }
    } else {
        assert(!all_true(u.passed)) by {
            assert(players.contains(order[n - 1]));
            assert(u.passed.dom().contains(order[n - 1]));
            assert(!u.passed[order[n - 1]]);
        }
    }
}

/// The state after `m` passes.
proof fn lemma_rotation_after(v0: PriorityView, players: Seq<EntityId>, k: int, m: nat)
    requires
        players.no_duplicates(),
        0 <= k < players.len(),
        players.len() <= usize::MAX,
        rotation_state(v0, rotated(players, k), players, 0),
    ensures
        rotation_state(passes(v0, m), rotated(players, k), players, m),
    decreases m,
{
    if m > 0 {
        lemma_rotation_after(v0, players, k, (m - 1) as nat);
        lemma_rotation_step(passes(v0, (m - 1) as nat), players, k, (m - 1) as nat);
    }
}

/// Priority goes round the table in turn order, starting with the active
/// player: once priority is set up for distinct players that include the
/// active player, the order begins with the active player, after `m` passes
/// priority sits at index `m` modulo the number of players, and the round is
/// complete exactly when every player has passed once; after as many passes
/// as there are players, priority is back with the active player.
pub proof fn law_priority_rotation(v: PriorityView, players: Seq<EntityId>, active: EntityId, m: nat)
    requires
        players.no_duplicates(),
        players.contains(active),
        players.len() <= usize::MAX,
    ensures
        ({
            let w = passes(after_initialize(v, players, active), m);
            let n = players.len() as int;
            &&& w.player_order[0] == active
            &&& w.priority_index as int == (m as int) % n
            &&& w.priority_player == w.player_order[(m as int) % n]
            &&& (w.all_players_passed <==> m >= n)
            &&& (m == n ==> w.priority_player == active)
        }),
{
    let v0 = after_initialize(v, players, active);
    let n = players.len() as int;
    assert(first_index_of(players, active) is Some);
    let k = start_index(players, active);
    assert(0 <= k < n && players[k] == active);
    lemma_rotated(players, k);
    lemma_small_mod(0, n as nat);
    assert(rotation_state(v0, rotated(players, k), players, 0)) by {
        assert(v0.passed.dom() =~= players.to_set());
        assert forall|j: int| 0 <= j < n implies #[trigger] v0.passed[rotated(players, k)[j]] == (j < 0) by {
            assert(players.contains(rotated(players, k)[j]));
        }
    }
    lemma_rotation_after(v0, players, k, m);
    if m == n {
        vstd::arithmetic::div_mod::lemma_mod_self_0(n);
    }
}

} // verus!
