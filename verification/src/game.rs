//! Game-wide state the rules read: players, turn bookkeeping, the stack and
//! zones.

use vstd::prelude::*;
use crate::entity::{EntityId, vec_contains, vec_push_unique};
use crate::phase::Phase;

verus! {

/// A player's life total and pending card draws.
#[derive(Clone, Copy, PartialEq, Eq, Structural, Debug)]
pub struct Player {
    pub life: i32,
    pub cards_to_draw: u32,
}

/// The zones a card can be in.
#[derive(Clone, Copy, PartialEq, Eq, Structural, Debug)]
pub enum Zone {
    Library,
    Hand,
    Battlefield,
    Graveyard,
    Stack,
    Exile,
    CommandZone,
}

/// A card moved from one zone to another.
#[derive(Clone, Copy, PartialEq, Eq, Structural, Debug)]
pub struct ZoneChangeEvent {
    pub card: EntityId,
    pub owner: EntityId,
    pub source: Zone,
    pub destination: Zone,
}

/// An object on the stack.
#[derive(Clone, Copy, PartialEq, Eq, Structural, Debug)]
pub struct StackItem {
    pub entity: EntityId,
}

/// The stack of spells and abilities waiting to resolve; the top is last.
pub struct GameStack {
    pub items: Vec<StackItem>,
    pub resolving: bool,
}

impl GameStack {
    /// Whether nothing is on the stack.
    pub fn is_empty(&self) -> (b: bool)
        ensures
            b == (self.items@.len() == 0),
    {
        self.items.len() == 0
    }
}

/// Per-game bookkeeping: whose turn it is, who holds priority and what was
/// done this turn.
pub struct GameState {
    pub active_player: EntityId,
    pub priority_holder: EntityId,
    pub turn_number: u32,
    pub turn_order: Vec<EntityId>,
    pub main_phase_action_taken: bool,
    pub state_based_actions_performed: bool,
    /// Players who have played a land this turn.
    pub lands_played: Vec<EntityId>,
}

impl GameState {
    /// Whether `player` may still play a land this turn (one land per turn).
    pub fn can_play_land(&self, player: EntityId) -> (b: bool)
        ensures
            b == !self.lands_played@.contains(player),
    {
        !vec_contains(&self.lands_played, player)
    }

    /// Records that `player` played a land this turn.
    pub fn record_land_played(&mut self, player: EntityId)
        ensures
            final(self).lands_played@.contains(player),
            !old(self).lands_played@.contains(player) ==> final(self).lands_played@ == old(self).lands_played@.push(player),
            old(self).lands_played@.contains(player) ==> final(self).lands_played@ == old(self).lands_played@,
            final(self).active_player == old(self).active_player,
            final(self).priority_holder == old(self).priority_holder,
            final(self).turn_number == old(self).turn_number,
            final(self).turn_order@ == old(self).turn_order@,
            final(self).main_phase_action_taken == old(self).main_phase_action_taken,
            final(self).state_based_actions_performed == old(self).state_based_actions_performed,
    {
        vec_push_unique(&mut self.lands_played, player);
        assert(self.lands_played@.contains(player)) by {
            if !old(self).lands_played@.contains(player) {
                assert(self.lands_played@[self.lands_played@.len() - 1] == player);
            }
        }
    }

    /// Forgets what was done during the previous turn.
    pub fn reset_turn_tracking(&mut self)
        ensures
            final(self).lands_played@.len() == 0,
            final(self).main_phase_action_taken == false,
            final(self).active_player == old(self).active_player,
            final(self).priority_holder == old(self).priority_holder,
            final(self).turn_number == old(self).turn_number,
            final(self).turn_order@ == old(self).turn_order@,
            final(self).state_based_actions_performed == old(self).state_based_actions_performed,
    {
        self.lands_played.clear();
        self.main_phase_action_taken = false;
    }
}

/// `order[(start + d) % len]` is the first player after position `start` who has
/// not been eliminated, `d` places on.
pub open spec fn is_next_offset(order: Seq<EntityId>, eliminated: Seq<EntityId>, start: int, d: int) -> bool {
    &&& 1 <= d <= order.len()
    &&& !eliminated.contains(order[(start + d) % (order.len() as int)])
    &&& forall|e: int| 1 <= e < d ==> eliminated.contains(#[trigger] order[(start + e) % (order.len() as int)])
}

/// The position turn order counts from: that of `active`, or -1 when it is
/// not in the order.
pub open spec fn turn_start(order: Seq<EntityId>, active: EntityId) -> int {
    match crate::entity::first_index_of(order, active) {
        Some(i) => i as int,
        None => -1,
    }
}

/// The player who takes the turn after `active`: the next player in `order`
/// (wrapping around) who has not been eliminated, or `active` when there is
/// none.
pub open spec fn next_turn_player(order: Seq<EntityId>, eliminated: Seq<EntityId>, active: EntityId) -> EntityId {
    let start = turn_start(order, active);
    if exists|d: int| is_next_offset(order, eliminated, start, d) {
        let d = choose|d: int| is_next_offset(order, eliminated, start, d);
        order[(start + d) % (order.len() as int)]
    } else {
        active
    }
}

/// Turn bookkeeping: whose turn it is, the turn count and who is out.
pub struct TurnManager {
    pub active_player: EntityId,
    pub turn_number: u32,
    pub current_phase: Phase,
    pub player_order: Vec<EntityId>,
    pub eliminated_players: Vec<EntityId>,
}

impl TurnManager {
    /// Passes the turn to the next player in turn order who has not been
    /// eliminated, and counts the new turn.
    pub fn advance_turn(&mut self)
        requires
            old(self).turn_number < u32::MAX,
        ensures
            final(self).turn_number == old(self).turn_number + 1,
            final(self).active_player == next_turn_player(
                old(self).player_order@,
                old(self).eliminated_players@,
                old(self).active_player,
            ),
            final(self).current_phase == old(self).current_phase,
            final(self).player_order@ == old(self).player_order@,
            final(self).eliminated_players@ == old(self).eliminated_players@,
    {
        let ghost order = self.player_order@;
        let ghost elim = self.eliminated_players@;
        let ghost active = self.active_player;
        let n = self.player_order.len();
        let pos = crate::entity::vec_position(&self.player_order, self.active_player);
        let ghost start: int = match pos {
            Some(i) => i as int,
            None => -1,
        };
        let base: usize = match pos {
            Some(i) => i + 1,
            None => 0,
        };
        assert(base == start + 1);
        let mut d: usize = 0;
        let mut chosen: Option<EntityId> = None;
        while d < n && chosen.is_none()
            invariant
                n == order.len(),
                order == self.player_order@,
                elim == self.eliminated_players@,
                base == start + 1,
                0 <= base <= n,
                d <= n,
                forall|e: int| 1 <= e <= d ==> elim.contains(#[trigger] order[(start + e) % (n as int)]),
                chosen matches Some(p) ==> d < n && p == order[(start + d + 1) % (n as int)] && !elim.contains(p),
            decreases n - d + if chosen is None { 1int } else { 0int },
        {
            let idx = if d < n - base { base + d } else { d - (n - base) };
            proof {
                let x = base as int + d as int;
                let m = n as int;
                assert(x % m == idx) by (nonlinear_arith)
                    requires
                        0 <= idx < m,
                        x == idx || x == idx + m,
                {
                }
                assert(start + d + 1 == x);
            }
            let candidate = self.player_order[idx];
            if !vec_contains(&self.eliminated_players, candidate) {
                chosen = Some(candidate);
            } else {
                d = d + 1;
            }
        }
        proof {
            let m = n as int;
            match chosen {
                Some(p) => {
                    let dd = d as int + 1;
                    assert(1 <= dd <= m && !elim.contains(order[(start + dd) % m]));
                    assert(start == turn_start(order, active));
                    assert(forall|e: int| 1 <= e < dd ==> elim.contains(#[trigger] order[(start + e) % m]));
                    assert(is_next_offset(order, elim, start, dd));
                    let c = choose|c: int| is_next_offset(order, elim, start, c);
                    assert(c == dd) by {
                        if c < dd {
                            assert(elim.contains(order[(start + c) % m]));
                        }
                        if c > dd {
                            assert(elim.contains(order[(start + dd) % m]));
                        }
                    }
                    assert(next_turn_player(order, elim, active) == order[(start + dd) % m]);
                    assert(p == order[(start + dd) % m]);
                }
                None => {
                    assert(d == n);
                    assert(start == turn_start(order, active));
                    assert(!exists|e: int| is_next_offset(order, elim, start, e)) by {
                        if exists|e: int| is_next_offset(order, elim, start, e) {
                            let e = choose|e: int| is_next_offset(order, elim, start, e);
                            assert(elim.contains(order[(start + e) % m]));
                        }
                    }
                    assert(next_turn_player(order, elim, active) == active);
                }
            }
        }
        if let Some(p) = chosen {
            self.active_player = p;
        }
        self.turn_number = self.turn_number + 1;
    }
}

/// A sequence that holds `e` has a first position of it.
proof fn lemma_first_position(s: Seq<EntityId>, e: EntityId, k: int)
    requires
        0 <= k < s.len(),
        s[k] == e,
    ensures
        exists|i: int| 0 <= i < s.len() && s[i] == e && forall|j: int| 0 <= j < i ==> s[j] != e,
    decreases k,
{
    if exists|j: int| 0 <= j < k && s[j] == e {
        let j = choose|j: int| 0 <= j < k && s[j] == e;
        lemma_first_position(s, e, j);
    } else {
        assert(forall|j: int| 0 <= j < k ==> s[j] != e);
    }
}

/// The position turn order counts from lies in the order, or just before it.
proof fn lemma_turn_start_range(order: Seq<EntityId>, active: EntityId)
    ensures
        -1 <= turn_start(order, active) < order.len(),
{
    if order.contains(active) {
        let k = choose|k: int| 0 <= k < order.len() && order[k] == active;
        lemma_first_position(order, active, k);
    }
}

/// Some offset up to `d` reaches the first remaining player after `start`,
/// when the player `d` places on remains.
proof fn lemma_next_offset_exists(order: Seq<EntityId>, eliminated: Seq<EntityId>, start: int, d: int)
    requires
        1 <= d <= order.len(),
        !eliminated.contains(order[(start + d) % (order.len() as int)]),
    ensures
        exists|c: int| is_next_offset(order, eliminated, start, c),
    decreases d,
{
    let m = order.len() as int;
    if exists|e: int| 1 <= e < d && !eliminated.contains(#[trigger] order[(start + e) % m]) {
        let e = choose|e: int| 1 <= e < d && !eliminated.contains(#[trigger] order[(start + e) % m]);
        lemma_next_offset_exists(order, eliminated, start, e);
    } else {
        assert(is_next_offset(order, eliminated, start, d));
    }
}

/// While anyone in the turn order is still in the game, the turn passes to
/// a player in the turn order who is still in the game.
pub proof fn law_turn_passes_to_a_remaining_player(
    order: Seq<EntityId>,
    eliminated: Seq<EntityId>,
    active: EntityId,
    j: int,
)
    requires
        0 <= j < order.len(),
        !eliminated.contains(order[j]),
    ensures
        order.contains(next_turn_player(order, eliminated, active)),
        !eliminated.contains(next_turn_player(order, eliminated, active)),
{
    let m = order.len() as int;
    let start = turn_start(order, active);
    lemma_turn_start_range(order, active);
    let d = if j > start { j - start } else { j - start + m };
    if j > start {
        vstd::arithmetic::div_mod::lemma_small_mod(j as nat, m as nat);
    } else {
        vstd::arithmetic::div_mod::lemma_mod_add_multiples_vanish(j, m);
        vstd::arithmetic::div_mod::lemma_small_mod(j as nat, m as nat);
        assert(start + d == m + j);
    }
    assert((start + d) % m == j);
    lemma_next_offset_exists(order, eliminated, start, d);
    let c = choose|c: int| is_next_offset(order, eliminated, start, c);
    vstd::arithmetic::div_mod::lemma_mod_bound(start + c, m);
    assert(next_turn_player(order, eliminated, active) == order[(start + c) % m]);
}

} // verus!
