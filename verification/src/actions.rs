//! Game actions: when lands and spells may be played, and how the actions
//! players take change the game.

use vstd::prelude::*;
use crate::cards::{Card, CardTypes, Mana};
use crate::entity::{EntityId, EntityMap};
use crate::game::{GameStack, GameState, Player};
use crate::phase::{Phase, PostcombatStep, PrecombatStep};
use crate::priority::{PriorityView, PrioritySystem, after_pass};

verus! {

/// An action a player takes.
pub enum GameAction {
    /// Play a land.
    PlayLand { player: EntityId, land_card: EntityId },
    /// Cast a spell.
    CastSpell { player: EntityId, spell_card: EntityId, targets: Vec<EntityId>, mana_payment: Mana },
    /// Activate an ability.
    ActivateAbility {
        player: EntityId,
        source: EntityId,
        ability_index: usize,
        targets: Vec<EntityId>,
        mana_payment: Mana,
    },
    /// Pass priority.
    PassPriority { player: EntityId },
}

/// A land may be played now by `player`: on its own turn, in a main phase.
pub open spec fn land_time(active_player: EntityId, phase: Phase, player: EntityId) -> bool {
    active_player == player && (phase == Phase::Precombat(PrecombatStep::Main)
        || phase == Phase::Postcombat(PostcombatStep::Main))
}

/// Whether `player` may play a land now: on its own turn, in a main phase.
pub fn valid_time_to_play_land(game_state: &GameState, phase: &Phase, player: EntityId) -> (b: bool)
    ensures
        b == land_time(game_state.active_player, *phase, player),
{
    if game_state.active_player != player {
        return false;
    }
    match phase {
        Phase::Precombat(PrecombatStep::Main) => true,
        Phase::Postcombat(PostcombatStep::Main) => true,
        _ => false,
    }
}

/// Whether `player` may cast a sorcery-speed spell now: on its own turn, in
/// a main phase, with the stack empty.
pub fn valid_time_for_sorcery(game_state: &GameState, phase: &Phase, stack: &GameStack, player: EntityId) -> (b: bool)
    ensures
        b == (game_state.active_player == player && phase.is_main_phase() && stack.items@.len() == 0),
{
    if game_state.active_player != player {
        return false;
    }
    if !phase.allows_sorcery_speed() {
        return false;
    }
    if !stack.is_empty() {
        return false;
    }
    true
}

/// Whether a card is cast at instant speed: it is an instant.
pub fn is_instant_cast(card: &Card) -> (b: bool)
    ensures
        b == card.types.has(CardTypes { bits: 2 }),
{
    card.types.contains(CardTypes::instant())
}

/// Whether `player` can pay `cost`: every cost is payable for now.
pub fn can_pay_mana(player: &Player, cost: &Mana) -> (b: bool)
    ensures
        b,
{
    true
}

/// What an action changes: the players who played a land this turn and the
/// priority tracking. A land is played by the active player in a main
/// phase, once per turn, when the card is a land; priority passes when the
/// player holds it. Casting spells and activating abilities change neither.
pub open spec fn apply_action(
    lands: Seq<EntityId>,
    pv: PriorityView,
    active_player: EntityId,
    phase: Phase,
    cards: Map<EntityId, Card>,
    a: GameAction,
) -> (Seq<EntityId>, PriorityView) {
    match a {
        GameAction::PlayLand { player, land_card } => if land_time(active_player, phase, player) && !lands.contains(player)
            && cards.dom().contains(land_card) && cards[land_card].types.has(CardTypes { bits: 8 }) {
            (lands.push(player), pv)
        } else {
            (lands, pv)
        },
        GameAction::PassPriority { player } => if pv.priority_player == player {
            (lands, after_pass(pv))
        } else {
            (lands, pv)
        },
        _ => (lands, pv),
    }
}

/// What the actions `actions` change, in order.
pub open spec fn apply_actions(
    lands: Seq<EntityId>,
    pv: PriorityView,
    active_player: EntityId,
    phase: Phase,
    cards: Map<EntityId, Card>,
    actions: Seq<GameAction>,
) -> (Seq<EntityId>, PriorityView)
    decreases actions.len(),
{
    if actions.len() == 0 {
        (lands, pv)
    } else {
        let prev = apply_actions(lands, pv, active_player, phase, cards, actions.drop_last());
        apply_action(prev.0, prev.1, active_player, phase, cards, actions.last())
    }
}

/// Carries out the players' actions in order: valid land plays are recorded
/// and priority passes when its holder passes.
pub fn process_game_actions(
    game_state: &mut GameState,
    stack: &GameStack,
    priority: &mut PrioritySystem,
    phase: &Phase,
    actions: &Vec<GameAction>,
    players: &EntityMap<Player>,
    cards: &EntityMap<Card>,
)
    requires
        old(priority).wf(),
        old(priority).priority_index < usize::MAX,
        cards.wf(),
        players.wf(),
    ensures
        final(priority).wf(),
        ({
            let r = apply_actions(
                old(game_state).lands_played@,
                old(priority)@,
                old(game_state).active_player,
                *phase,
                cards@,
                actions@,
            );
            &&& final(game_state).lands_played@ == r.0
            &&& final(priority)@ == r.1
        }),
        final(game_state).active_player == old(game_state).active_player,
        final(game_state).priority_holder == old(game_state).priority_holder,
        final(game_state).turn_number == old(game_state).turn_number,
        final(game_state).turn_order@ == old(game_state).turn_order@,
        final(game_state).main_phase_action_taken == old(game_state).main_phase_action_taken,
        final(game_state).state_based_actions_performed == old(game_state).state_based_actions_performed,
{
    let mut i: usize = 0;
    while i < actions.len()
        invariant
            priority.wf(),
            priority.priority_index < usize::MAX,
            cards.wf(),
            players.wf(),
            i <= actions@.len(),
            ({
                let r = apply_actions(
                    old(game_state).lands_played@,
                    old(priority)@,
                    old(game_state).active_player,
                    *phase,
                    cards@,
                    actions@.take(i as int),
                );
                &&& game_state.lands_played@ == r.0
                &&& priority@ == r.1
            }),
            game_state.active_player == old(game_state).active_player,
            game_state.priority_holder == old(game_state).priority_holder,
            game_state.turn_number == old(game_state).turn_number,
            game_state.turn_order@ == old(game_state).turn_order@,
            game_state.main_phase_action_taken == old(game_state).main_phase_action_taken,
            game_state.state_based_actions_performed == old(game_state).state_based_actions_performed,
        decreases actions@.len() - i,
    {
        proof {
            assert(actions@.take(i + 1).drop_last() =~= actions@.take(i as int));
        }
        match &actions[i] {
            GameAction::PlayLand { player, land_card } => {
                if valid_time_to_play_land(game_state, phase, *player) {
                    if game_state.can_play_land(*player) {
                        match cards.get(*land_card) {
                            Some(card) => {
                                if card.types.contains(CardTypes::land()) {
                                    game_state.record_land_played(*player);
                                }
                            },
                            None => {},
                        }
                    }
                }
            },
            GameAction::CastSpell { player, spell_card, targets: _, mana_payment: _ } => {
                match cards.get(*spell_card) {
                    Some(card) => {
                        let instant = is_instant_cast(card);
                        if instant || valid_time_for_sorcery(game_state, phase, stack, *player) {
                            match players.get(*player) {
                                Some(p) => {
                                    let _payable = can_pay_mana(p, &card.cost);
                                },
                                None => {},
                            }
                        }
                    },
                    None => {},
                }
            },
            GameAction::ActivateAbility { .. } => {},
            GameAction::PassPriority { player } => {
                if priority.has_priority(*player) {
                    priority.pass_priority();
                    let _order_len = priority.player_order.len();
                }
            },
        }
        i = i + 1;
    }
    assert(actions@.take(actions@.len() as int) =~= actions@);
}

} // verus!
