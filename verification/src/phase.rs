//! The phases and steps of a turn and the order in which they follow.

use vstd::prelude::*;

verus! {

/// Steps within the Beginning phase.
#[derive(Debug, Clone, Copy, PartialEq, Eq, Structural)]
pub enum BeginningStep {
    Untap,
    Upkeep,
    Draw,
}

/// Steps within the Precombat Main phase.
#[derive(Debug, Clone, Copy, PartialEq, Eq, Structural)]
pub enum PrecombatStep {
    Main,
}

/// Steps within the Combat phase.
#[derive(Debug, Clone, Copy, PartialEq, Eq, Structural)]
pub enum CombatStep {
    Beginning,
    DeclareAttackers,
    DeclareBlockers,
    CombatDamage,
    End,
}

/// Steps within the Postcombat Main phase.
#[derive(Debug, Clone, Copy, PartialEq, Eq, Structural)]
pub enum PostcombatStep {
    Main,
}

/// Steps within the Ending phase.
#[derive(Debug, Clone, Copy, PartialEq, Eq, Structural)]
pub enum EndingStep {
    End,
    Cleanup,
}

/// The phases (with their steps) of a turn.
#[derive(Debug, Clone, Copy, PartialEq, Eq, Structural)]
pub enum Phase {
    Beginning(BeginningStep),
    Precombat(PrecombatStep),
    Combat(CombatStep),
    Postcombat(PostcombatStep),
    Ending(EndingStep),
}

/// The number of steps in a turn.
pub open spec fn steps_per_turn() -> nat {
    12
}

/// The position of a step in the turn, counting from the untap step at 0.
pub open spec fn turn_position(p: Phase) -> nat {
    match p {
        Phase::Beginning(BeginningStep::Untap) => 0,
        Phase::Beginning(BeginningStep::Upkeep) => 1,
        Phase::Beginning(BeginningStep::Draw) => 2,
        Phase::Precombat(PrecombatStep::Main) => 3,
        Phase::Combat(CombatStep::Beginning) => 4,
        Phase::Combat(CombatStep::DeclareAttackers) => 5,
        Phase::Combat(CombatStep::DeclareBlockers) => 6,
        Phase::Combat(CombatStep::CombatDamage) => 7,
        Phase::Combat(CombatStep::End) => 8,
        Phase::Postcombat(PostcombatStep::Main) => 9,
        Phase::Ending(EndingStep::End) => 10,
        Phase::Ending(EndingStep::Cleanup) => 11,
    }
}

/// The step at a position of the turn (positions are taken modulo 12).
pub open spec fn step_at(i: nat) -> Phase {
    let k = i % 12;
    if k == 0 {
        Phase::Beginning(BeginningStep::Untap)
    } else if k == 1 {
        Phase::Beginning(BeginningStep::Upkeep)
    } else if k == 2 {
        Phase::Beginning(BeginningStep::Draw)
    } else if k == 3 {
        Phase::Precombat(PrecombatStep::Main)
    } else if k == 4 {
        Phase::Combat(CombatStep::Beginning)
    } else if k == 5 {
        Phase::Combat(CombatStep::DeclareAttackers)
    } else if k == 6 {
        Phase::Combat(CombatStep::DeclareBlockers)
    } else if k == 7 {
        Phase::Combat(CombatStep::CombatDamage)
    } else if k == 8 {
        Phase::Combat(CombatStep::End)
    } else if k == 9 {
        Phase::Postcombat(PostcombatStep::Main)
    } else if k == 10 {
        Phase::Ending(EndingStep::End)
    } else {
        Phase::Ending(EndingStep::Cleanup)
    }
}

/// The step that comes `n` steps after `p`.
pub open spec fn steps_after(p: Phase, n: nat) -> Phase {
    step_at(turn_position(p) + n)
}

impl Phase {
    /// Whether priority passes by itself in this step when nothing happens.
    pub fn auto_pass_if_empty(&self) -> (b: bool)
        ensures
            b == self.spec_auto_pass_if_empty(),
    {
        match self {
            Phase::Beginning(BeginningStep::Untap) => true,
            Phase::Beginning(BeginningStep::Draw) => true,
            Phase::Combat(CombatStep::Beginning) => true,
            Phase::Combat(CombatStep::End) => true,
            Phase::Ending(EndingStep::Cleanup) => true,
            _ => false,
        }
    }

    /// Players may act in this step.
    pub open spec fn spec_allows_actions(self) -> bool {
        !(self == Phase::Beginning(BeginningStep::Untap) || self == Phase::Ending(EndingStep::Cleanup))
    }

    /// Priority passes by itself in this step while the stack is empty:
    /// untap, draw, beginning and end of combat, and cleanup.
    pub open spec fn spec_auto_pass_if_empty(self) -> bool {
        self == Phase::Beginning(BeginningStep::Untap) || self == Phase::Beginning(BeginningStep::Draw)
            || self == Phase::Combat(CombatStep::Beginning) || self == Phase::Combat(CombatStep::End)
            || self == Phase::Ending(EndingStep::Cleanup)
    }

    /// Whether players may cast spells or activate abilities in this step:
    /// every step but untap and cleanup.
    pub fn allows_actions(&self) -> (b: bool)
        ensures
            b == self.spec_allows_actions(),
    {
        match self {
            Phase::Beginning(BeginningStep::Untap) => false,
            Phase::Ending(EndingStep::Cleanup) => false,
            _ => true,
        }
    }

    /// This step is one of the two main phases.
    pub open spec fn is_main_phase(self) -> bool {
        self == Phase::Precombat(PrecombatStep::Main) || self == Phase::Postcombat(PostcombatStep::Main)
    }

    /// Whether sorcery-speed spells may be cast in this step: the two main
    /// phases.
    pub fn allows_sorcery_speed(&self) -> (b: bool)
        ensures
            b == self.is_main_phase(),
    {
        match self {
            Phase::Precombat(PrecombatStep::Main) => true,
            Phase::Postcombat(PostcombatStep::Main) => true,
            _ => false,
        }
    }

    /// The step that follows this one; cleanup is followed by the untap step
    /// of the next turn.
    pub fn next(&self) -> (n: Phase)
        ensures
            n == step_at(turn_position(*self) + 1),
            n == next_step(*self),
    {
        match self {
            Phase::Beginning(BeginningStep::Untap) => Phase::Beginning(BeginningStep::Upkeep),
            Phase::Beginning(BeginningStep::Upkeep) => Phase::Beginning(BeginningStep::Draw),
            Phase::Beginning(BeginningStep::Draw) => Phase::Precombat(PrecombatStep::Main),
            Phase::Precombat(PrecombatStep::Main) => Phase::Combat(CombatStep::Beginning),
            Phase::Combat(CombatStep::Beginning) => Phase::Combat(CombatStep::DeclareAttackers),
            Phase::Combat(CombatStep::DeclareAttackers) => Phase::Combat(CombatStep::DeclareBlockers),
            Phase::Combat(CombatStep::DeclareBlockers) => Phase::Combat(CombatStep::CombatDamage),
            Phase::Combat(CombatStep::CombatDamage) => Phase::Combat(CombatStep::End),
            Phase::Combat(CombatStep::End) => Phase::Postcombat(PostcombatStep::Main),
            Phase::Postcombat(PostcombatStep::Main) => Phase::Ending(EndingStep::End),
            Phase::Ending(EndingStep::End) => Phase::Ending(EndingStep::Cleanup),
            Phase::Ending(EndingStep::Cleanup) => Phase::Beginning(BeginningStep::Untap),
        }
    }
}

impl Default for Phase {
    fn default() -> (p: Self)
        ensures
            p == Phase::Beginning(BeginningStep::Untap),
    {
        Phase::Beginning(BeginningStep::Untap)
    }
}

/// Every step has a position below 12 and is the step at its position.
pub proof fn lemma_position_roundtrip(p: Phase)
    ensures
        turn_position(p) < steps_per_turn(),
        step_at(turn_position(p)) == p,
{
}

/// Twelve steps after any step, the turn is back at the same step: `next`
/// runs through the turn in a cycle of twelve.
pub proof fn law_turn_cycle(p: Phase)
    ensures
        steps_after(p, steps_per_turn()) == p,
{
    assert((turn_position(p) + 12) % 12 == turn_position(p) % 12);
}

/// The step after cleanup is the untap step, and no other step is followed by
/// it: a new turn begins exactly when cleanup ends.
pub proof fn law_untap_follows_only_cleanup(p: Phase)
    ensures
        (step_at(turn_position(p) + 1) == Phase::Beginning(BeginningStep::Untap)) <==> (p
            == Phase::Ending(EndingStep::Cleanup)),
{
}

/// Different steps have different successors.
pub proof fn law_next_injective(p: Phase, q: Phase)
    ensures
        step_at(turn_position(p) + 1) == step_at(turn_position(q) + 1) ==> p == q,
{
}

/// The twelve steps of a turn are pairwise distinct: no step occurs twice in
/// a turn.
pub proof fn law_turn_steps_distinct(i: nat, j: nat)
    requires
        i < steps_per_turn(),
        j < steps_per_turn(),
        i != j,
    ensures
        step_at(i) != step_at(j),
{
    assert(i % 12 == i);
    assert(j % 12 == j);
    assert(turn_position(step_at(i)) == i);
    assert(turn_position(step_at(j)) == j);
}

/// The step that `next` gives after `p`.
pub open spec fn next_step(p: Phase) -> Phase {
    step_at(turn_position(p) + 1)
}

/// `p` after `k` calls of `next`.
pub open spec fn next_times(p: Phase, k: nat) -> Phase
    decreases k,
{
    if k == 0 {
        p
    } else {
        next_step(next_times(p, (k - 1) as nat))
    }
}

/// The position of the step at `x` is `x` modulo 12.
proof fn lemma_position_of_step(x: nat)
    ensures
        turn_position(step_at(x)) == x % 12,
{
}

/// Calling `next` `k` times moves `k` steps on.
proof fn lemma_next_times(p: Phase, k: nat)
    ensures
        next_times(p, k) == steps_after(p, k),
    decreases k,
{
    if k > 0 {
        lemma_next_times(p, (k - 1) as nat);
        let x = turn_position(p) + (k - 1);
        lemma_position_of_step(x as nat);
        assert((x % 12 + 1) % 12 == (x + 1) % 12) by (nonlinear_arith)
            requires
                x >= 0,
        ;
    }
}

/// `next` runs through the turn in one cycle of twelve steps: twelve calls
/// of `next` from any step return to it, and the twelve steps met on the way
/// are pairwise distinct.
pub proof fn law_next_cycles_through_the_turn(p: Phase, i: nat, j: nat)
    requires
        i < 12,
        j < 12,
        i != j,
    ensures
        next_times(p, 12) == p,
        next_times(p, i) != next_times(p, j),
{
    lemma_next_times(p, 12);
    lemma_next_times(p, i);
    lemma_next_times(p, j);
    law_turn_cycle(p);
    let x = turn_position(p) + i;
    let y = turn_position(p) + j;
    lemma_position_of_step(x as nat);
    lemma_position_of_step(y as nat);
    assert(x % 12 != y % 12) by (nonlinear_arith)
        requires
            0 <= x - i < 12,
            y - j == x - i,
            i < 12,
            j < 12,
            i != j,
    ;
}

/// From the untap step, `next` visits upkeep, draw, the precombat main
/// phase, beginning of combat, declare attackers, declare blockers, combat
/// damage, end of combat, the postcombat main phase, the end step and
/// cleanup, in that order.
pub proof fn law_next_order_from_untap()
    ensures
        next_times(Phase::Beginning(BeginningStep::Untap), 1) == Phase::Beginning(BeginningStep::Upkeep),
        next_times(Phase::Beginning(BeginningStep::Untap), 2) == Phase::Beginning(BeginningStep::Draw),
        next_times(Phase::Beginning(BeginningStep::Untap), 3) == Phase::Precombat(PrecombatStep::Main),
        next_times(Phase::Beginning(BeginningStep::Untap), 4) == Phase::Combat(CombatStep::Beginning),
        next_times(Phase::Beginning(BeginningStep::Untap), 5) == Phase::Combat(CombatStep::DeclareAttackers),
        next_times(Phase::Beginning(BeginningStep::Untap), 6) == Phase::Combat(CombatStep::DeclareBlockers),
        next_times(Phase::Beginning(BeginningStep::Untap), 7) == Phase::Combat(CombatStep::CombatDamage),
        next_times(Phase::Beginning(BeginningStep::Untap), 8) == Phase::Combat(CombatStep::End),
        next_times(Phase::Beginning(BeginningStep::Untap), 9) == Phase::Postcombat(PostcombatStep::Main),
        next_times(Phase::Beginning(BeginningStep::Untap), 10) == Phase::Ending(EndingStep::End),
        next_times(Phase::Beginning(BeginningStep::Untap), 11) == Phase::Ending(EndingStep::Cleanup),
{
    let u = Phase::Beginning(BeginningStep::Untap);
    lemma_next_times(u, 1);
    lemma_next_times(u, 2);
    lemma_next_times(u, 3);
    lemma_next_times(u, 4);
    lemma_next_times(u, 5);
    lemma_next_times(u, 6);
    lemma_next_times(u, 7);
    lemma_next_times(u, 8);
    lemma_next_times(u, 9);
    lemma_next_times(u, 10);
    lemma_next_times(u, 11);
}

} // verus!
