//! Permanents on the battlefield: tapping, summoning sickness, owners and
//! controllers, and effects that keep a permanent from untapping.

use vstd::prelude::*;
use crate::entity::EntityId;
use crate::keywords_and_counters::{Counters, no_counters};

verus! {

/// Marks an entity as a permanent.
#[derive(Clone, Copy, PartialEq, Eq, Structural, Debug)]
pub struct Permanent;

/// The state of a permanent.
#[derive(Clone, Copy, PartialEq, Eq, Structural, Debug)]
pub struct PermanentState {
    /// Whether it is tapped.
    pub is_tapped: bool,
    /// Whether it has summoning sickness (cannot attack or use tap abilities).
    pub has_summoning_sickness: bool,
    /// The turn it entered the battlefield.
    pub turn_entered_battlefield: u32,
    /// The counters on it.
    pub counters: Counters,
}

/// Tapping: a tapped permanent stays as it is and the tap fails; an untapped
/// one becomes tapped.
pub open spec fn tapped(s: PermanentState) -> (PermanentState, bool) {
    if s.is_tapped {
        (s, false)
    } else {
        (PermanentState { is_tapped: true, ..s }, true)
    }
}

/// Untapping: an untapped permanent stays as it is and the untap fails; a
/// tapped one becomes untapped.
pub open spec fn untapped(s: PermanentState) -> (PermanentState, bool) {
    if !s.is_tapped {
        (s, false)
    } else {
        (PermanentState { is_tapped: false, ..s }, true)
    }
}

/// Summoning sickness wears off once a later turn has begun.
pub open spec fn sickness_updated(s: PermanentState, current_turn: u32) -> PermanentState {
    if s.has_summoning_sickness && current_turn > s.turn_entered_battlefield {
        PermanentState { has_summoning_sickness: false, ..s }
    } else {
        s
    }
}

impl PermanentState {
    /// A permanent that entered on `turn_number`: untapped, summoning sick,
    /// without counters.
    pub fn new(turn_number: u32) -> (s: Self)
        ensures
            !s.is_tapped,
            s.has_summoning_sickness,
            s.turn_entered_battlefield == turn_number,
            no_counters(s.counters),
    {
        PermanentState {
            is_tapped: false,
            has_summoning_sickness: true,
            turn_entered_battlefield: turn_number,
            counters: Counters::new(),
        }
    }

    /// Taps the permanent; false when it was already tapped.
    pub fn tap(&mut self) -> (ok: bool)
        ensures
            (*final(self), ok) == tapped(*old(self)),
    {
        if self.is_tapped {
            return false;
        }
        self.is_tapped = true;
        true
    }

    /// Untaps the permanent; false when it was already untapped.
    pub fn untap(&mut self) -> (ok: bool)
        ensures
            (*final(self), ok) == untapped(*old(self)),
    {
        if !self.is_tapped {
            return false;
        }
        self.is_tapped = false;
        true
    }

    /// Whether it can be tapped: untapped, and free of summoning sickness if
    /// it is a creature.
    pub fn can_tap(&self, is_creature: bool) -> (b: bool)
        ensures
            b == (!self.is_tapped && (!is_creature || !self.has_summoning_sickness)),
    {
        !self.is_tapped && (!is_creature || !self.has_summoning_sickness)
    }

    /// Ends summoning sickness once a turn after the one it entered has begun.
    pub fn update_summoning_sickness(&mut self, current_turn: u32)
        ensures
            *final(self) == sickness_updated(*old(self), current_turn),
    {
        if self.has_summoning_sickness && current_turn > self.turn_entered_battlefield {
            self.has_summoning_sickness = false;
        }
    }
}

impl Default for PermanentState {
    fn default() -> (s: Self)
        ensures
            !s.is_tapped,
            !s.has_summoning_sickness,
            s.turn_entered_battlefield == 0,
            no_counters(s.counters),
    {
        PermanentState {
            is_tapped: false,
            has_summoning_sickness: false,
            turn_entered_battlefield: 0,
            counters: Counters::new(),
        }
    }
}

/// When a permanent does not untap in its controller's untap step.
#[derive(Debug)]
pub enum NoUntapCondition {
    /// Only during the next untap step.
    NextUntapStep,
    /// While a permanent exists.
    WhilePermanentExists(EntityId),
    /// While its controller controls a permanent.
    WhileControlling(EntityId),
    /// While its controller has less than this much life.
    WhileLifeLessThan(i32),
    /// A condition described in words.
    Custom(String),
}

/// A permanent that does not untap during the untap step.
pub struct NoUntapEffect {
    /// What applied the effect.
    pub source: Option<EntityId>,
    /// When it applies; always when `None`.
    pub condition: Option<NoUntapCondition>,
}

/// The player who owns a permanent (whose deck it came from).
#[derive(Clone, Copy, PartialEq, Eq, Structural, Debug)]
pub struct PermanentOwner {
    pub player: EntityId,
}

impl PermanentOwner {
    /// The owner `player`.
    pub fn new(player: EntityId) -> (o: Self)
        ensures
            o.player == player,
    {
        PermanentOwner { player }
    }
}

/// The player who controls a permanent.
#[derive(Clone, Copy, PartialEq, Eq, Structural, Debug)]
pub struct PermanentController {
    pub player: EntityId,
}

impl PermanentController {
    /// The controller `player`.
    pub fn new(player: EntityId) -> (c: Self)
        ensures
            c.player == player,
    {
        PermanentController { player }
    }
}

/// Updates every permanent for the current turn: summoning sickness wears
/// off on permanents that entered on an earlier turn.
pub fn update_permanent_state(turn_number: u32, states: &mut Vec<PermanentState>)
    ensures
        final(states)@ == old(states)@.map_values(|s: PermanentState| sickness_updated(s, turn_number)),
{
    let mut i: usize = 0;
    while i < states.len()
        invariant
            states@.len() == old(states)@.len(),
            i <= states@.len(),
            forall|j: int| 0 <= j < i ==> #[trigger] states@[j] == sickness_updated(old(states)@[j], turn_number),
            forall|j: int| i <= j < states@.len() ==> #[trigger] states@[j] == old(states)@[j],
        decreases states@.len() - i,
    {
        let mut s = states[i];
        s.update_summoning_sickness(turn_number);
        states.set(i, s);
        i = i + 1;
    }
    assert(states@ =~= old(states)@.map_values(|s: PermanentState| sickness_updated(s, turn_number)));
}

/// Tapping an untapped permanent and untapping it again restores it, and
/// both succeed.
pub proof fn law_tap_then_untap_restores(s: PermanentState)
    requires
        !s.is_tapped,
    ensures
        tapped(s).1,
        untapped(tapped(s).0).1,
        untapped(tapped(s).0).0 == s,
{
}

/// Tapping twice: the second tap fails and changes nothing.
pub proof fn law_tap_is_idempotent(s: PermanentState)
    ensures
        tapped(tapped(s).0).0 == tapped(s).0,
        !tapped(tapped(s).0).1,
{
}

/// A tapped permanent cannot be tapped; an untapped, non-sick permanent can.
pub proof fn law_can_tap_matches_tap(s: PermanentState, is_creature: bool)
    ensures
        (!s.is_tapped && (!is_creature || !s.has_summoning_sickness)) ==> tapped(s).1,
        s.is_tapped ==> !tapped(s).1,
{
}

/// Summoning sickness never comes back, and once the turn is later than the
/// turn the permanent entered, it is gone.
pub proof fn law_sickness_wears_off(s: PermanentState, turn: u32)
    ensures
        !s.has_summoning_sickness ==> !sickness_updated(s, turn).has_summoning_sickness,
        turn > s.turn_entered_battlefield ==> !sickness_updated(s, turn).has_summoning_sickness,
        sickness_updated(sickness_updated(s, turn), turn) == sickness_updated(s, turn),
{
}

} // verus!
