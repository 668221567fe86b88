//! Combat: declaring attackers and blockers, which blocks are legal, and the
//! combat damage each creature deals.

use vstd::prelude::*;
use crate::cards::{Card, CardDetails, CreatureType, ManaColor};
use crate::commander::CombatDamageEvent;
use crate::game::Player;
use crate::entity::{EntityId, EntityMap, distinct_values, seq_at, vec_contains};
use crate::phase::{CombatStep, Phase};
use crate::text::{contains_text, text_contains};

verus! {

/// A player declares attackers.
#[derive(Clone, Copy, PartialEq, Eq, Structural, Debug)]
pub struct DeclareAttackersEvent {
    pub attacking_player: EntityId,
}

/// Blockers are to be declared by the defending players.
#[derive(Clone, PartialEq, Eq, Debug)]
pub struct DeclareBlockersEvent {
    pub defending_players: Vec<EntityId>,
}

/// Combat damage should be assigned (in the first-strike step or the regular one).
#[derive(Clone, Copy, PartialEq, Eq, Structural, Debug)]
pub struct AssignCombatDamageEvent {
    pub is_first_strike: bool,
}

/// A creature is declared as an attacker against a defender.
#[derive(Clone, Copy, PartialEq, Eq, Structural, Debug)]
pub struct AttackerDeclaredEvent {
    pub attacker: EntityId,
    pub defender: EntityId,
}

/// A creature is declared as a blocker of an attacker.
#[derive(Clone, Copy, PartialEq, Eq, Structural, Debug)]
pub struct BlockerDeclaredEvent {
    pub blocker: EntityId,
    pub attacker: EntityId,
}

/// Combat begins.
#[derive(Clone, Copy, PartialEq, Eq, Structural, Debug)]
pub struct CombatBeginEvent {
    pub player: EntityId,
}

/// Combat ends.
#[derive(Clone, Copy, PartialEq, Eq, Structural, Debug)]
pub struct CombatEndEvent {
    pub player: EntityId,
}

/// The declare attackers step begins.
#[derive(Clone, Copy, PartialEq, Eq, Structural, Debug)]
pub struct DeclareAttackersStepBeginEvent {
    pub player: EntityId,
}

/// The declare attackers step ends.
#[derive(Clone, Copy, PartialEq, Eq, Structural, Debug)]
pub struct DeclareAttackersStepEndEvent {
    pub player: EntityId,
}

/// The declare blockers step begins.
#[derive(Clone, Copy, PartialEq, Eq, Structural, Debug)]
pub struct DeclareBlockersStepBeginEvent {
    pub player: EntityId,
}

/// The declare blockers step ends.
#[derive(Clone, Copy, PartialEq, Eq, Structural, Debug)]
pub struct DeclareBlockersStepEndEvent {
    pub player: EntityId,
}

/// A creature attacks.
#[derive(Clone, Copy, PartialEq, Eq, Structural, Debug)]
pub struct CreatureAttacksEvent {
    pub attacker: EntityId,
    pub defender: EntityId,
}

/// A creature blocks.
#[derive(Clone, Copy, PartialEq, Eq, Structural, Debug)]
pub struct CreatureBlocksEvent {
    pub blocker: EntityId,
    pub attacker: EntityId,
}

/// A creature becomes blocked.
#[derive(Clone, Copy, PartialEq, Eq, Structural, Debug)]
pub struct CreatureBlockedEvent {
    pub attacker: EntityId,
    pub blocker: EntityId,
}

/// Combat damage is complete.
#[derive(Clone, Copy, PartialEq, Eq, Structural, Debug)]
pub struct CombatDamageCompleteEvent;

/// Whether an attacking creature is blocked.
#[derive(Clone, Copy, PartialEq, Eq, Structural, Debug)]
pub enum BlockedStatus {
    Unblocked,
    Blocked,
    /// Was blocked, but every blocker has since left combat.
    BlockedButRemoved,
}

/// How a creature's statistic is compared with a bound.
#[derive(Clone, Copy, PartialEq, Eq, Structural, Debug)]
pub enum Comparison {
    LessThan,
    LessThanOrEqual,
    Equal,
    GreaterThanOrEqual,
    GreaterThan,
}

/// A restriction on which creatures may block an attacker.
#[derive(Clone, Copy, PartialEq, Eq, Structural, Debug)]
pub enum BlockRestriction {
    CreatureType(CreatureType),
    Color(ManaColor),
    Power(Comparison, i32),
    Toughness(Comparison, i32),
}

/// The state of combat during a turn.
pub struct CombatState {
    /// Attacking creature to the player it attacks.
    pub attackers: EntityMap<EntityId>,
    /// Attacking creature to the creatures blocking it.
    pub blockers: EntityMap<Vec<EntityId>>,
    /// Whether each attacking creature is blocked.
    pub blocked_status: EntityMap<BlockedStatus>,
    /// Attacker to the damage it assigns to each target.
    pub assigned_combat_damage: EntityMap<Vec<(EntityId, u32)>>,
    /// Combat damage waiting to be dealt.
    pub pending_combat_damage: Vec<CombatDamageEvent>,
    /// Players who have been attacked this turn.
    pub players_attacked_this_turn: Vec<EntityId>,
    /// Player to the creatures attacking them.
    pub creatures_attacking_each_player: EntityMap<Vec<EntityId>>,
    /// Creature to the players it must attack.
    pub must_attack: EntityMap<Vec<EntityId>>,
    /// Creature to the players it cannot attack.
    pub cannot_attack: EntityMap<Vec<EntityId>>,
    /// Attacker to the restrictions naming what cannot block it.
    pub cannot_be_blocked_by: EntityMap<Vec<BlockRestriction>>,
    /// Player to commander to commander damage dealt this combat.
    pub commander_damage_this_combat: EntityMap<EntityMap<u32>>,
    pub in_declare_attackers: bool,
    pub in_declare_blockers: bool,
    pub in_combat_damage: bool,
    /// 1 for the first-strike damage step, 2 for the regular one.
    pub combat_damage_step_number: u8,
}

impl CombatState {
    /// Every map is well formed.
    pub open spec fn wf(&self) -> bool {
        &&& self.attackers.wf()
        &&& self.blockers.wf()
        &&& self.blocked_status.wf()
        &&& self.assigned_combat_damage.wf()
        &&& self.creatures_attacking_each_player.wf()
        &&& self.must_attack.wf()
        &&& self.cannot_attack.wf()
        &&& self.cannot_be_blocked_by.wf()
        &&& self.commander_damage_this_combat.wf()
        &&& forall|k: EntityId| #[trigger] self.commander_damage_this_combat@.dom().contains(k)
            ==> self.commander_damage_this_combat@[k].wf()
    }

    /// Nothing is recorded and no step is under way.
    pub open spec fn is_clear(&self) -> bool {
        &&& self.attackers@ == Map::<EntityId, EntityId>::empty()
        &&& self.blockers@ == Map::<EntityId, Vec<EntityId>>::empty()
        &&& self.blocked_status@ == Map::<EntityId, BlockedStatus>::empty()
        &&& self.assigned_combat_damage@ == Map::<EntityId, Vec<(EntityId, u32)>>::empty()
        &&& self.pending_combat_damage@.len() == 0
        &&& self.players_attacked_this_turn@.len() == 0
        &&& self.creatures_attacking_each_player@ == Map::<EntityId, Vec<EntityId>>::empty()
        &&& self.must_attack@ == Map::<EntityId, Vec<EntityId>>::empty()
        &&& self.cannot_attack@ == Map::<EntityId, Vec<EntityId>>::empty()
        &&& self.cannot_be_blocked_by@ == Map::<EntityId, Vec<BlockRestriction>>::empty()
        &&& self.commander_damage_this_combat@ == Map::<EntityId, EntityMap<u32>>::empty()
        &&& !self.in_declare_attackers
        &&& !self.in_declare_blockers
        &&& !self.in_combat_damage
        &&& self.combat_damage_step_number == 0
    }
}

impl Default for CombatState {
    fn default() -> (c: Self)
        ensures
            c.wf(),
            c.is_clear(),
    {
        CombatState {
            attackers: EntityMap::new(),
            blockers: EntityMap::new(),
            blocked_status: EntityMap::new(),
            assigned_combat_damage: EntityMap::new(),
            pending_combat_damage: Vec::new(),
            players_attacked_this_turn: Vec::new(),
            creatures_attacking_each_player: EntityMap::new(),
            must_attack: EntityMap::new(),
            cannot_attack: EntityMap::new(),
            cannot_be_blocked_by: EntityMap::new(),
            commander_damage_this_combat: EntityMap::new(),
            in_declare_attackers: false,
            in_declare_blockers: false,
            in_combat_damage: false,
            combat_damage_step_number: 0,
        }
    }
}

/// Clears the previous combat and announces the beginning of combat for the
/// active player.
pub fn initialize_combat_phase(combat_state: &mut CombatState, active_player: EntityId) -> (e: CombatBeginEvent)
    ensures
        final(combat_state).wf(),
        final(combat_state).is_clear(),
        e.player == active_player,
{
    *combat_state = CombatState::default();
    CombatBeginEvent { player: active_player }
}

/// `s` repeated `n` times.
pub open spec fn repeated<T>(s: Seq<T>, n: nat) -> Seq<T>
    decreases n,
{
    if n == 0 {
        Seq::empty()
    } else {
        repeated(s, (n - 1) as nat) + s
    }
}

/// One attack declaration per recorded attacker, in the order of `entries`.
pub open spec fn attacker_declarations(entries: Seq<(EntityId, EntityId)>) -> Seq<AttackerDeclaredEvent> {
    entries.map_values(|e: (EntityId, EntityId)| AttackerDeclaredEvent { attacker: e.0, defender: e.1 })
}

/// Enters the declare attackers step once per request and announces the
/// attackers already recorded, once per request, in insertion order.
pub fn handle_declare_attackers_event(
    combat_state: &mut CombatState,
    events: &Vec<DeclareAttackersEvent>,
) -> (out: Vec<AttackerDeclaredEvent>)
    ensures
        out@ == repeated(attacker_declarations(old(combat_state).attackers.entries@), events@.len()),
        final(combat_state).in_declare_attackers == (old(combat_state).in_declare_attackers || events@.len() > 0),
        *final(combat_state) == (CombatState { in_declare_attackers: final(combat_state).in_declare_attackers, ..*old(combat_state) }),
{
    let ghost decls = attacker_declarations(old(combat_state).attackers.entries@);
    let mut out: Vec<AttackerDeclaredEvent> = Vec::new();
    let mut i: usize = 0;
    while i < events.len()
        invariant
            decls == attacker_declarations(old(combat_state).attackers.entries@),
            i <= events@.len(),
            out@ == repeated(decls, i as nat),
            combat_state.in_declare_attackers == (old(combat_state).in_declare_attackers || i > 0),
            *combat_state == (CombatState { in_declare_attackers: combat_state.in_declare_attackers, ..*old(combat_state) }),
        decreases events@.len() - i,
    {
        combat_state.in_declare_attackers = true;
        let ghost before = out@;
        let mut j: usize = 0;
        while j < combat_state.attackers.entries.len()
            invariant
                decls == attacker_declarations(old(combat_state).attackers.entries@),
                *combat_state == (CombatState { in_declare_attackers: true, ..*old(combat_state) }),
                j <= combat_state.attackers.entries@.len(),
                out@ == before + decls.take(j as int),
            decreases combat_state.attackers.entries@.len() - j,
        {
            let (a, d) = combat_state.attackers.entries[j];
            out.push(AttackerDeclaredEvent { attacker: a, defender: d });
            j = j + 1;
            assert(out@ =~= before + decls.take(j as int));
        }
        assert(decls.take(decls.len() as int) =~= decls);
        i = i + 1;
    }
    out
}

/// The attacker map after the declarations `events`, applied in order (a
/// later declaration of the same attacker replaces an earlier one).
pub open spec fn attackers_after(m: Map<EntityId, EntityId>, events: Seq<AttackerDeclaredEvent>) -> Map<EntityId, EntityId>
    decreases events.len(),
{
    if events.len() == 0 {
        m
    } else {
        attackers_after(m, events.drop_last()).insert(events.last().attacker, events.last().defender)
    }
}

/// The blocked-status map after declaring `events` attackers: each is unblocked.
pub open spec fn unblocked_after(m: Map<EntityId, BlockedStatus>, events: Seq<AttackerDeclaredEvent>) -> Map<EntityId, BlockedStatus>
    decreases events.len(),
{
    if events.len() == 0 {
        m
    } else {
        unblocked_after(m, events.drop_last()).insert(events.last().attacker, BlockedStatus::Unblocked)
    }
}

/// The players attacked after the declarations `events`: each defender once,
/// in the order in which it was first attacked.
pub open spec fn attacked_after(s: Seq<EntityId>, events: Seq<AttackerDeclaredEvent>) -> Seq<EntityId>
    decreases events.len(),
{
    if events.len() == 0 {
        s
    } else {
        let prev = attacked_after(s, events.drop_last());
        if prev.contains(events.last().defender) {
            prev
        } else {
            prev.push(events.last().defender)
        }
    }
}

/// The creatures attacking each player after the declarations `events`.
pub open spec fn attacking_after(m: Map<EntityId, Seq<EntityId>>, events: Seq<AttackerDeclaredEvent>) -> Map<EntityId, Seq<EntityId>>
    decreases events.len(),
{
    if events.len() == 0 {
        m
    } else {
        let prev = attacking_after(m, events.drop_last());
        let d = events.last().defender;
        let list = if prev.dom().contains(d) { prev[d] } else { Seq::empty() };
        prev.insert(d, list.push(events.last().attacker))
    }
}

/// The lists of a map of vectors, by their views.
pub open spec fn lists_of(m: Map<EntityId, Vec<EntityId>>) -> Map<EntityId, Seq<EntityId>> {
    Map::new(|k: EntityId| m.dom().contains(k), |k: EntityId| m[k]@)
}

/// Appending `x` to the list of `key` appends it in the lists' view too.
proof fn lemma_lists_push(before: Map<EntityId, Vec<EntityId>>, after: Map<EntityId, Vec<EntityId>>, key: EntityId, x: EntityId)
    requires
        after.dom() == before.dom().insert(key),
        after[key]@ == seq_at(before, key).push(x),
        forall|k: EntityId| k != key && before.dom().contains(k) ==> #[trigger] after[k] == before[k],
    ensures
        lists_of(after) == lists_of(before).insert(
            key,
            (if lists_of(before).dom().contains(key) { lists_of(before)[key] } else { Seq::empty() }).push(x),
        ),
{
    assert(lists_of(after) =~= lists_of(before).insert(
        key,
        (if lists_of(before).dom().contains(key) { lists_of(before)[key] } else { Seq::empty() }).push(x),
    ));
}

/// What the declare attackers step produces.
pub struct DeclareAttackersOutput {
    /// One announcement per request to enter the step.
    pub step_begins: Vec<DeclareAttackersStepBeginEvent>,
    /// One announcement per recorded attack.
    pub attacks: Vec<CreatureAttacksEvent>,
    /// The step ended.
    pub step_end: Option<DeclareAttackersStepEndEvent>,
    /// The request to declare blockers, naming every attacked player once.
    pub declare_blockers: Option<DeclareBlockersEvent>,
}

/// The declare attackers step.
///
/// Each request enters the step and is announced. While in the step, each
/// declared attack is recorded: the attacker attacks its defender, is
/// unblocked, the defender counts as attacked this turn and the attacker is
/// added to the creatures attacking it; each attack is announced. When the
/// turn is in the declare attackers step, the step ends: the end is
/// announced for the active player and, if any creature attacks, blockers
/// are requested from every attacked player, each named once.
pub fn declare_attackers_system(
    combat_state: &mut CombatState,
    declare_events: &Vec<DeclareAttackersEvent>,
    attack_events: &Vec<AttackerDeclaredEvent>,
    current_phase: Phase,
    active_player: EntityId,
) -> (out: DeclareAttackersOutput)
    requires
        old(combat_state).wf(),
    ensures
        final(combat_state).wf(),
        ({
            let started = old(combat_state).in_declare_attackers || declare_events@.len() > 0;
            let acc = if started { attack_events@ } else { Seq::<AttackerDeclaredEvent>::empty() };
            let ends = started && current_phase == Phase::Combat(CombatStep::DeclareAttackers);
            &&& out.step_begins@ == declare_events@.map_values(
                |e: DeclareAttackersEvent| DeclareAttackersStepBeginEvent { player: e.attacking_player },
            )
            &&& final(combat_state).attackers@ == attackers_after(old(combat_state).attackers@, acc)
            &&& final(combat_state).blocked_status@ == unblocked_after(old(combat_state).blocked_status@, acc)
            &&& final(combat_state).players_attacked_this_turn@ == attacked_after(old(combat_state).players_attacked_this_turn@, acc)
            &&& lists_of(final(combat_state).creatures_attacking_each_player@) == attacking_after(
                lists_of(old(combat_state).creatures_attacking_each_player@),
                acc,
            )
            &&& out.attacks@ == acc.map_values(
                |e: AttackerDeclaredEvent| CreatureAttacksEvent { attacker: e.attacker, defender: e.defender },
            )
            &&& final(combat_state).in_declare_attackers == (started && !ends)
            &&& out.step_end == (if ends {
                Some(DeclareAttackersStepEndEvent { player: active_player })
            } else {
                None
            })
            &&& (out.declare_blockers is Some) == (ends && final(combat_state).attackers@.values() != Set::<EntityId>::empty())
        }),
        out.declare_blockers matches Some(e) ==> e.defending_players@.no_duplicates()
            && e.defending_players@.to_set() == final(combat_state).attackers@.values(),
        *final(combat_state) == (CombatState {
            attackers: final(combat_state).attackers,
            blocked_status: final(combat_state).blocked_status,
            players_attacked_this_turn: final(combat_state).players_attacked_this_turn,
            creatures_attacking_each_player: final(combat_state).creatures_attacking_each_player,
            in_declare_attackers: final(combat_state).in_declare_attackers,
            ..*old(combat_state)
        }),
{
    let mut step_begins: Vec<DeclareAttackersStepBeginEvent> = Vec::new();
    let mut i: usize = 0;
    while i < declare_events.len()
        invariant
            i <= declare_events@.len(),
            step_begins@ == declare_events@.take(i as int).map_values(
                |e: DeclareAttackersEvent| DeclareAttackersStepBeginEvent { player: e.attacking_player },
            ),
            combat_state.in_declare_attackers == (old(combat_state).in_declare_attackers || i > 0),
            *combat_state == (CombatState { in_declare_attackers: combat_state.in_declare_attackers, ..*old(combat_state) }),
        decreases declare_events@.len() - i,
    {
        combat_state.in_declare_attackers = true;
        step_begins.push(DeclareAttackersStepBeginEvent { player: declare_events[i].attacking_player });
        i = i + 1;
        assert(step_begins@ =~= declare_events@.take(i as int).map_values(
            |e: DeclareAttackersEvent| DeclareAttackersStepBeginEvent { player: e.attacking_player },
        ));
    }
    assert(declare_events@.take(declare_events@.len() as int) =~= declare_events@);
    let ghost mid = *combat_state;
    let mut attacks: Vec<CreatureAttacksEvent> = Vec::new();
    if combat_state.in_declare_attackers {
        let mut k: usize = 0;
        while k < attack_events.len()
            invariant
                combat_state.wf(),
                mid.wf(),
                k <= attack_events@.len(),
                combat_state.attackers@ == attackers_after(mid.attackers@, attack_events@.take(k as int)),
                combat_state.blocked_status@ == unblocked_after(mid.blocked_status@, attack_events@.take(k as int)),
                combat_state.players_attacked_this_turn@ == attacked_after(mid.players_attacked_this_turn@, attack_events@.take(k as int)),
                lists_of(combat_state.creatures_attacking_each_player@) == attacking_after(
                    lists_of(mid.creatures_attacking_each_player@),
                    attack_events@.take(k as int),
                ),
                *combat_state == (CombatState {
                    attackers: combat_state.attackers,
                    blocked_status: combat_state.blocked_status,
                    players_attacked_this_turn: combat_state.players_attacked_this_turn,
                    creatures_attacking_each_player: combat_state.creatures_attacking_each_player,
                    ..mid
                }),
                attacks@ == attack_events@.take(k as int).map_values(
                    |e: AttackerDeclaredEvent| CreatureAttacksEvent { attacker: e.attacker, defender: e.defender },
                ),
            decreases attack_events@.len() - k,
        {
            let e = attack_events[k];
            proof {
                assert(attack_events@.take(k + 1).drop_last() =~= attack_events@.take(k as int));
            }
            combat_state.attackers.insert(e.attacker, e.defender);
            combat_state.blocked_status.insert(e.attacker, BlockedStatus::Unblocked);
            crate::entity::vec_push_unique(&mut combat_state.players_attacked_this_turn, e.defender);
            let ghost before_lists = combat_state.creatures_attacking_each_player@;
            combat_state.creatures_attacking_each_player.push_to(e.defender, e.attacker);
            proof {
                lemma_lists_push(before_lists, combat_state.creatures_attacking_each_player@, e.defender, e.attacker);
            }
            attacks.push(CreatureAttacksEvent { attacker: e.attacker, defender: e.defender });
            k = k + 1;
            assert(attacks@ =~= attack_events@.take(k as int).map_values(
                |e: AttackerDeclaredEvent| CreatureAttacksEvent { attacker: e.attacker, defender: e.defender },
            ));
        }
        assert(attack_events@.take(attack_events@.len() as int) =~= attack_events@);
    }
    let in_step = match current_phase {
        Phase::Combat(CombatStep::DeclareAttackers) => true,
        _ => false,
    };
    let mut step_end = None;
    let mut declare_blockers = None;
    if combat_state.in_declare_attackers && in_step {
        combat_state.in_declare_attackers = false;
        step_end = Some(DeclareAttackersStepEndEvent { player: active_player });
        let defending = distinct_values(&combat_state.attackers);
        proof {
            if defending@.len() > 0 {
                assert(defending@.to_set().contains(defending@[0]));
            } else {
                assert(defending@.to_set() =~= Set::<EntityId>::empty());
            }
        }
        if defending.len() > 0 {
            declare_blockers = Some(DeclareBlockersEvent { defending_players: defending });
        }
    }
    DeclareAttackersOutput { step_begins, attacks, step_end, declare_blockers }
}

/// One block declaration per recorded blocker, attacker by attacker in the
/// order of `entries`.
pub open spec fn blocker_declarations(entries: Seq<(EntityId, Vec<EntityId>)>) -> Seq<BlockerDeclaredEvent>
    decreases entries.len(),
{
    if entries.len() == 0 {
        Seq::empty()
    } else {
        blocker_declarations(entries.drop_last()) + entries.last().1@.map_values(
            |b: EntityId| BlockerDeclaredEvent { blocker: b, attacker: entries.last().0 },
        )
    }
}

/// Leaves the declare attackers step and enters the declare blockers step
/// once per request, announcing the blockers already recorded once per
/// request.
pub fn handle_declare_blockers_event(
    combat_state: &mut CombatState,
    events: &Vec<DeclareBlockersEvent>,
) -> (out: Vec<BlockerDeclaredEvent>)
    ensures
        out@ == repeated(blocker_declarations(old(combat_state).blockers.entries@), events@.len()),
        final(combat_state).in_declare_attackers == (old(combat_state).in_declare_attackers && events@.len() == 0),
        final(combat_state).in_declare_blockers == (old(combat_state).in_declare_blockers || events@.len() > 0),
        *final(combat_state) == (CombatState {
            in_declare_attackers: final(combat_state).in_declare_attackers,
            in_declare_blockers: final(combat_state).in_declare_blockers,
            ..*old(combat_state)
        }),
{
    let ghost entries = old(combat_state).blockers.entries@;
    let ghost decls = blocker_declarations(entries);
    let mut out: Vec<BlockerDeclaredEvent> = Vec::new();
    let mut i: usize = 0;
    while i < events.len()
        invariant
            entries == old(combat_state).blockers.entries@,
            decls == blocker_declarations(entries),
            i <= events@.len(),
            out@ == repeated(decls, i as nat),
            combat_state.in_declare_attackers == (old(combat_state).in_declare_attackers && i == 0),
            combat_state.in_declare_blockers == (old(combat_state).in_declare_blockers || i > 0),
            *combat_state == (CombatState {
                in_declare_attackers: combat_state.in_declare_attackers,
                in_declare_blockers: combat_state.in_declare_blockers,
                ..*old(combat_state)
            }),
        decreases events@.len() - i,
    {
        combat_state.in_declare_attackers = false;
        combat_state.in_declare_blockers = true;
        let ghost before = out@;
        let mut j: usize = 0;
        while j < combat_state.blockers.entries.len()
            invariant
                entries == old(combat_state).blockers.entries@,
                *combat_state == (CombatState {
                    in_declare_attackers: false,
                    in_declare_blockers: true,
                    ..*old(combat_state)
                }),
                j <= entries.len(),
                out@ == before + blocker_declarations(entries.take(j as int)),
            decreases entries.len() - j,
        {
            let attacker = combat_state.blockers.entries[j].0;
            let list = &combat_state.blockers.entries[j].1;
            let ghost base = out@;
            let mut k: usize = 0;
            while k < list.len()
                invariant
                    entries == old(combat_state).blockers.entries@,
                    j < entries.len(),
                    *list == entries[j as int].1,
                    attacker == entries[j as int].0,
                    k <= list@.len(),
                    out@ == base + list@.take(k as int).map_values(
                        |b: EntityId| BlockerDeclaredEvent { blocker: b, attacker: attacker },
                    ),
                decreases list@.len() - k,
            {
                out.push(BlockerDeclaredEvent { blocker: list[k], attacker });
                k = k + 1;
                assert(out@ =~= base + list@.take(k as int).map_values(
                    |b: EntityId| BlockerDeclaredEvent { blocker: b, attacker: attacker },
                ));
            }
            proof {
                assert(list@.take(list@.len() as int) =~= list@);
                assert(entries.take(j + 1).drop_last() =~= entries.take(j as int));
                assert(out@ =~= before + blocker_declarations(entries.take(j + 1)));
            }
            j = j + 1;
        }
        assert(entries.take(entries.len() as int) =~= entries);
        i = i + 1;
    }
    out
}

/// The block declarations among `events` that are legal: the blocked
/// creature is attacking and the blocker may block it.
pub open spec fn legal_blocks(
    events: Seq<BlockerDeclaredEvent>,
    creatures: Map<EntityId, Card>,
    restrictions: Map<EntityId, Vec<BlockRestriction>>,
    attackers: Set<EntityId>,
) -> Seq<BlockerDeclaredEvent> {
    events.filter(
        |e: BlockerDeclaredEvent| attackers.contains(e.attacker) && block_allowed(e.blocker, e.attacker, creatures, restrictions),
    )
}

/// The blocker lists after adding the blocks `events`, in order.
pub open spec fn blockers_after(m: Map<EntityId, Seq<EntityId>>, events: Seq<BlockerDeclaredEvent>) -> Map<EntityId, Seq<EntityId>>
    decreases events.len(),
{
    if events.len() == 0 {
        m
    } else {
        let prev = blockers_after(m, events.drop_last());
        let a = events.last().attacker;
        let list = if prev.dom().contains(a) { prev[a] } else { Seq::empty() };
        prev.insert(a, list.push(events.last().blocker))
    }
}

/// The blocked-status map after the blocks `events`: each blocked attacker is
/// marked blocked.
pub open spec fn blocked_after(m: Map<EntityId, BlockedStatus>, events: Seq<BlockerDeclaredEvent>) -> Map<EntityId, BlockedStatus>
    decreases events.len(),
{
    if events.len() == 0 {
        m
    } else {
        blocked_after(m, events.drop_last()).insert(events.last().attacker, BlockedStatus::Blocked)
    }
}

/// The step announcements for the requests `events`: one per defending
/// player, request by request.
pub open spec fn blockers_step_begins(events: Seq<DeclareBlockersEvent>) -> Seq<DeclareBlockersStepBeginEvent>
    decreases events.len(),
{
    if events.len() == 0 {
        Seq::empty()
    } else {
        blockers_step_begins(events.drop_last()) + events.last().defending_players@.map_values(
            |p: EntityId| DeclareBlockersStepBeginEvent { player: p },
        )
    }
}

/// What the declare blockers step produces.
pub struct DeclareBlockersOutput {
    /// One announcement per defending player of each request.
    pub step_begins: Vec<DeclareBlockersStepBeginEvent>,
    /// One announcement per recorded block, from the blocker's side.
    pub blocks: Vec<CreatureBlocksEvent>,
    /// One announcement per recorded block, from the attacker's side.
    pub blocked: Vec<CreatureBlockedEvent>,
    /// The step ended.
    pub step_end: Option<DeclareBlockersStepEndEvent>,
    /// The request to assign combat damage.
    pub damage: Option<AssignCombatDamageEvent>,
}

/// The declare blockers step.
///
/// Each request enters the step and is announced for each defending player.
/// While in the step, each legal block is recorded: the attacker is marked
/// blocked and the blocker is added to its blockers; each block is announced
/// from both sides. When the turn is in the declare blockers step, the step
/// ends: the end is announced for the active player, and combat damage is
/// requested, in the first-strike step when some attacker or blocker has
/// first strike or double strike and in the regular step otherwise.
pub fn declare_blockers_system(
    combat_state: &mut CombatState,
    declare_events: &Vec<DeclareBlockersEvent>,
    blocker_events: &Vec<BlockerDeclaredEvent>,
    creatures: &EntityMap<Card>,
    current_phase: Phase,
    active_player: EntityId,
) -> (out: DeclareBlockersOutput)
    requires
        old(combat_state).wf(),
        creatures.wf(),
    ensures
        final(combat_state).wf(),
        ({
            let started = old(combat_state).in_declare_blockers || declare_events@.len() > 0;
            let acc = if started {
                legal_blocks(
                    blocker_events@,
                    creatures@,
                    old(combat_state).cannot_be_blocked_by@,
                    old(combat_state).attackers@.dom(),
                )
            } else {
                Seq::<BlockerDeclaredEvent>::empty()
            };
            let ends = started && current_phase == Phase::Combat(CombatStep::DeclareBlockers);
            let first = any_strikes_early(creatures@, final(combat_state).attackers@, final(combat_state).blockers@);
            &&& out.step_begins@ == blockers_step_begins(declare_events@)
            &&& lists_of(final(combat_state).blockers@) == blockers_after(lists_of(old(combat_state).blockers@), acc)
            &&& final(combat_state).blocked_status@ == blocked_after(old(combat_state).blocked_status@, acc)
            &&& out.blocks@ == acc.map_values(|e: BlockerDeclaredEvent| CreatureBlocksEvent { blocker: e.blocker, attacker: e.attacker })
            &&& out.blocked@ == acc.map_values(|e: BlockerDeclaredEvent| CreatureBlockedEvent { attacker: e.attacker, blocker: e.blocker })
            &&& final(combat_state).in_declare_blockers == (started && !ends)
            &&& out.step_end == (if ends { Some(DeclareBlockersStepEndEvent { player: active_player }) } else { None })
            &&& out.damage == (if ends { Some(AssignCombatDamageEvent { is_first_strike: first }) } else { None })
            &&& final(combat_state).combat_damage_step_number == (if ends {
                if first { 1u8 } else { 2u8 }
            } else {
                old(combat_state).combat_damage_step_number
            })
        }),
        *final(combat_state) == (CombatState {
            blockers: final(combat_state).blockers,
            blocked_status: final(combat_state).blocked_status,
            in_declare_blockers: final(combat_state).in_declare_blockers,
            combat_damage_step_number: final(combat_state).combat_damage_step_number,
            ..*old(combat_state)
        }),
{
    let mut step_begins: Vec<DeclareBlockersStepBeginEvent> = Vec::new();
    let mut i: usize = 0;
    while i < declare_events.len()
        invariant
            i <= declare_events@.len(),
            step_begins@ == blockers_step_begins(declare_events@.take(i as int)),
            combat_state.in_declare_blockers == (old(combat_state).in_declare_blockers || i > 0),
            *combat_state == (CombatState { in_declare_blockers: combat_state.in_declare_blockers, ..*old(combat_state) }),
        decreases declare_events@.len() - i,
    {
        combat_state.in_declare_blockers = true;
        let players = &declare_events[i].defending_players;
        let ghost base = step_begins@;
        let mut k: usize = 0;
        while k < players.len()
            invariant
                i < declare_events@.len(),
                *players == declare_events@[i as int].defending_players,
                k <= players@.len(),
                step_begins@ == base + players@.take(k as int).map_values(|p: EntityId| DeclareBlockersStepBeginEvent { player: p }),
            decreases players@.len() - k,
        {
            step_begins.push(DeclareBlockersStepBeginEvent { player: players[k] });
            k = k + 1;
            assert(step_begins@ =~= base + players@.take(k as int).map_values(|p: EntityId| DeclareBlockersStepBeginEvent { player: p }));
        }
        proof {
            assert(players@.take(players@.len() as int) =~= players@);
            assert(declare_events@.take(i + 1).drop_last() =~= declare_events@.take(i as int));
        }
        i = i + 1;
    }
    assert(declare_events@.take(declare_events@.len() as int) =~= declare_events@);
    let ghost mid = *combat_state;
    let ghost pred = |e: BlockerDeclaredEvent|
        mid.attackers@.dom().contains(e.attacker) && block_allowed(e.blocker, e.attacker, creatures@, mid.cannot_be_blocked_by@);
    let mut blocks: Vec<CreatureBlocksEvent> = Vec::new();
    let mut blocked: Vec<CreatureBlockedEvent> = Vec::new();
    if combat_state.in_declare_blockers {
        let mut i: usize = 0;
        while i < blocker_events.len()
            invariant
                combat_state.wf(),
                creatures.wf(),
                pred == (|e: BlockerDeclaredEvent|
                    mid.attackers@.dom().contains(e.attacker) && block_allowed(e.blocker, e.attacker, creatures@, mid.cannot_be_blocked_by@)),
                i <= blocker_events@.len(),
                lists_of(combat_state.blockers@) == blockers_after(lists_of(mid.blockers@), blocker_events@.take(i as int).filter(pred)),
                combat_state.blocked_status@ == blocked_after(mid.blocked_status@, blocker_events@.take(i as int).filter(pred)),
                blocks@ == blocker_events@.take(i as int).filter(pred).map_values(|e: BlockerDeclaredEvent| CreatureBlocksEvent { blocker: e.blocker, attacker: e.attacker }),
                blocked@ == blocker_events@.take(i as int).filter(pred).map_values(|e: BlockerDeclaredEvent| CreatureBlockedEvent { attacker: e.attacker, blocker: e.blocker }),
                *combat_state == (CombatState {
                    blockers: combat_state.blockers,
                    blocked_status: combat_state.blocked_status,
                    ..mid
                }),
            decreases blocker_events@.len() - i,
        {
            let e = blocker_events[i];
            let ghost before = blocker_events@.take(i as int).filter(pred);
            proof {
                assert(blocker_events@.take(i + 1) =~= blocker_events@.take(i as int).push(e));
                blocker_events@.take(i as int).lemma_filter_push(e, pred);
            }
            if combat_state.attackers.contains_key(e.attacker) && validate_block(e.blocker, e.attacker, creatures, combat_state) {
                let ghost old_blockers = combat_state.blockers@;
                combat_state.blockers.push_to(e.attacker, e.blocker);
                combat_state.blocked_status.insert(e.attacker, BlockedStatus::Blocked);
                blocks.push(CreatureBlocksEvent { blocker: e.blocker, attacker: e.attacker });
                blocked.push(CreatureBlockedEvent { attacker: e.attacker, blocker: e.blocker });
                proof {
                    let after = before.push(e);
                    assert(after.drop_last() =~= before);
                    lemma_lists_push(old_blockers, combat_state.blockers@, e.attacker, e.blocker);
                    assert(blocks@ =~= after.map_values(|e: BlockerDeclaredEvent| CreatureBlocksEvent { blocker: e.blocker, attacker: e.attacker }));
                    assert(blocked@ =~= after.map_values(|e: BlockerDeclaredEvent| CreatureBlockedEvent { attacker: e.attacker, blocker: e.blocker }));
                }
            }
            i = i + 1;
        }
        assert(blocker_events@.take(blocker_events@.len() as int) =~= blocker_events@);
    }
    let in_step = match current_phase {
        Phase::Combat(CombatStep::DeclareBlockers) => true,
        _ => false,
    };
    let mut step_end = None;
    let mut damage = None;
    if combat_state.in_declare_blockers && in_step {
        combat_state.in_declare_blockers = false;
        step_end = Some(DeclareBlockersStepEndEvent { player: active_player });
        let first = check_for_first_strike_creatures(combat_state, creatures);
        if first {
            combat_state.combat_damage_step_number = 1;
        } else {
            combat_state.combat_damage_step_number = 2;
        }
        damage = Some(AssignCombatDamageEvent { is_first_strike: first });
    }
    DeclareBlockersOutput { step_begins, blocks, blocked, step_end, damage }
}

/// Adding blocks that each name one of `attackers` keeps the creatures with
/// blockers, and those marked blocked, among `attackers`.
proof fn lemma_blocks_stay_on_attackers(
    m: Map<EntityId, Seq<EntityId>>,
    status: Map<EntityId, BlockedStatus>,
    events: Seq<BlockerDeclaredEvent>,
    attackers: Set<EntityId>,
)
    requires
        m.dom().subset_of(attackers),
        status.dom().subset_of(attackers),
        forall|i: int| 0 <= i < events.len() ==> attackers.contains(#[trigger] events[i].attacker),
    ensures
        blockers_after(m, events).dom().subset_of(attackers),
        blocked_after(status, events).dom().subset_of(attackers),
    decreases events.len(),
{
    if events.len() > 0 {
        let rest = events.drop_last();
        assert forall|i: int| 0 <= i < rest.len() implies attackers.contains(#[trigger] rest[i].attacker) by {
            assert(rest[i] == events[i]);
        }
        lemma_blocks_stay_on_attackers(m, status, rest, attackers);
        assert(attackers.contains(events[events.len() - 1].attacker));
    }
}

/// Only attacking creatures are blocked: if every creature with blockers,
/// and every creature marked blocked, is attacking, the same holds after the
/// legal blocks among any declarations are recorded.
pub proof fn law_blockers_block_attackers(
    m: Map<EntityId, Seq<EntityId>>,
    status: Map<EntityId, BlockedStatus>,
    events: Seq<BlockerDeclaredEvent>,
    creatures: Map<EntityId, Card>,
    restrictions: Map<EntityId, Vec<BlockRestriction>>,
    attackers: Set<EntityId>,
)
    requires
        m.dom().subset_of(attackers),
        status.dom().subset_of(attackers),
    ensures
        blockers_after(m, legal_blocks(events, creatures, restrictions, attackers)).dom().subset_of(attackers),
        blocked_after(status, legal_blocks(events, creatures, restrictions, attackers)).dom().subset_of(attackers),
{
    let pred = |e: BlockerDeclaredEvent| attackers.contains(e.attacker) && block_allowed(e.blocker, e.attacker, creatures, restrictions);
    let acc = events.filter(pred);
    assert forall|i: int| 0 <= i < acc.len() implies attackers.contains(#[trigger] acc[i].attacker) by {
        events.lemma_filter_pred(pred, i);
    }
    lemma_blocks_stay_on_attackers(m, status, acc, attackers);
}

/// `value` compares with `bound` as `comparison` says.
pub open spec fn comparison_holds(comparison: Comparison, value: i32, bound: i32) -> bool {
    match comparison {
        Comparison::LessThan => value < bound,
        Comparison::LessThanOrEqual => value <= bound,
        Comparison::Equal => value == bound,
        Comparison::GreaterThanOrEqual => value >= bound,
        Comparison::GreaterThan => value > bound,
    }
}

/// Whether `value` compares with `bound` as `comparison` says.
pub fn compare(comparison: Comparison, value: i32, bound: i32) -> (b: bool)
    ensures
        b == comparison_holds(comparison, value, bound),
{
    match comparison {
        Comparison::LessThan => value < bound,
        Comparison::LessThanOrEqual => value <= bound,
        Comparison::Equal => value == bound,
        Comparison::GreaterThanOrEqual => value >= bound,
        Comparison::GreaterThan => value > bound,
    }
}

/// A creature with these statistics is not among those the restriction
/// names as unable to block: not of the named creature type, and without
/// the named power or toughness. Colour restrictions are not checked (cards
/// carry no colour).
pub open spec fn restriction_allows(r: BlockRestriction, creature: crate::cards::CreatureCard) -> bool {
    match r {
        BlockRestriction::CreatureType(t) => creature.creature_type != t,
        BlockRestriction::Power(c, v) => !comparison_holds(c, creature.power, v),
        BlockRestriction::Toughness(c, v) => !comparison_holds(c, creature.toughness, v),
        BlockRestriction::Color(_) => true,
    }
}

/// `blocker` may block `attacker`: the blocker is a creature card and passes
/// every restriction on what may block the attacker.
pub open spec fn block_allowed(
    blocker: EntityId,
    attacker: EntityId,
    creatures: Map<EntityId, Card>,
    restrictions: Map<EntityId, Vec<BlockRestriction>>,
) -> bool {
    &&& creatures.dom().contains(blocker)
    &&& creatures[blocker].card_details is Creature
    &&& forall|i: int| 0 <= i < seq_at(restrictions, attacker).len()
        ==> restriction_allows(#[trigger] seq_at(restrictions, attacker)[i], creatures[blocker].card_details->Creature_0)
}

/// Whether `blocker` may legally block `attacker`.
pub fn validate_block(
    blocker: EntityId,
    attacker: EntityId,
    creatures: &EntityMap<Card>,
    combat_state: &CombatState,
) -> (b: bool)
    requires
        creatures.wf(),
        combat_state.wf(),
    ensures
        b == block_allowed(blocker, attacker, creatures@, combat_state.cannot_be_blocked_by@),
{
    let card = match creatures.get(blocker) {
        Some(c) => c,
        None => {
            return false;
        },
    };
    let creature = match card.card_details {
        CardDetails::Creature(c) => c,
        CardDetails::Other => {
            return false;
        },
    };
    match combat_state.cannot_be_blocked_by.get(attacker) {
        Some(restrictions) => {
            let mut i: usize = 0;
            while i < restrictions.len()
                invariant
                    combat_state.cannot_be_blocked_by@.dom().contains(attacker),
                    *restrictions == combat_state.cannot_be_blocked_by@[attacker],
                    creatures@.dom().contains(blocker),
                    creatures@[blocker].card_details == CardDetails::Creature(creature),
                    i <= restrictions@.len(),
                    forall|j: int| 0 <= j < i ==> restriction_allows(#[trigger] restrictions@[j], creature),
                decreases restrictions@.len() - i,
            {
                let allowed = match restrictions[i] {
                    BlockRestriction::CreatureType(t) => creature.creature_type != t,
                    BlockRestriction::Power(c, v) => !compare(c, creature.power, v),
                    BlockRestriction::Toughness(c, v) => !compare(c, creature.toughness, v),
                    BlockRestriction::Color(_) => true,
                };
                if !allowed {
                    proof {
                        assert(seq_at(combat_state.cannot_be_blocked_by@, attacker) == restrictions@);
                        assert(!restriction_allows(seq_at(combat_state.cannot_be_blocked_by@, attacker)[i as int], creature));
                    }
                    return false;
                }
                i = i + 1;
            }
            true
        },
        None => true,
    }
}

/// The card's rules text grants first strike or double strike.
pub open spec fn has_strike_text(c: Card) -> (bool, bool) {
    (contains_text(c.rules_text@, "first strike"@), contains_text(c.rules_text@, "double strike"@))
}

/// The card is a creature whose rules text mentions first strike or double strike.
pub open spec fn strikes_early(c: Card) -> bool {
    c.card_details is Creature && (has_strike_text(c).0 || has_strike_text(c).1)
}

/// `e` is a known creature card that strikes early.
pub open spec fn entity_strikes_early(creatures: Map<EntityId, Card>, e: EntityId) -> bool {
    creatures.dom().contains(e) && strikes_early(creatures[e])
}

/// Some attacker or blocker in combat strikes early.
pub open spec fn any_strikes_early(
    creatures: Map<EntityId, Card>,
    attackers: Map<EntityId, EntityId>,
    blockers: Map<EntityId, Vec<EntityId>>,
) -> bool {
    (exists|a: EntityId| attackers.dom().contains(a) && #[trigger] entity_strikes_early(creatures, a))
    || (exists|k: EntityId, i: int| blockers.dom().contains(k) && 0 <= i < blockers[k]@.len()
        && #[trigger] entity_strikes_early(creatures, blockers[k]@[i]))
}

/// Whether the creature `e` is a known creature card that strikes early.
fn creature_strikes_early(creatures: &EntityMap<Card>, e: EntityId) -> (b: bool)
    requires
        creatures.wf(),
    ensures
        b == entity_strikes_early(creatures@, e),
{
    match creatures.get(e) {
        Some(card) => {
            match card.card_details {
                CardDetails::Creature(_) => {
                    text_contains(card.rules_text.as_str(), "first strike") || text_contains(
                        card.rules_text.as_str(),
                        "double strike",
                    )
                },
                CardDetails::Other => false,
            }
        },
        None => false,
    }
}

/// Whether any attacker or blocker has first strike or double strike.
pub fn check_for_first_strike_creatures(combat_state: &CombatState, creatures: &EntityMap<Card>) -> (b: bool)
    requires
        combat_state.wf(),
        creatures.wf(),
    ensures
        b == any_strikes_early(creatures@, combat_state.attackers@, combat_state.blockers@),
{
    let mut i: usize = 0;
    while i < combat_state.attackers.entries.len()
        invariant
            combat_state.wf(),
            creatures.wf(),
            i <= combat_state.attackers.entries@.len(),
            forall|j: int| 0 <= j < i ==> !entity_strikes_early(creatures@, #[trigger] combat_state.attackers.entries@[j].0),
        decreases combat_state.attackers.entries@.len() - i,
    {
        let a = combat_state.attackers.entries[i].0;
        if creature_strikes_early(creatures, a) {
            proof {
                crate::entity::lemma_key_index_unique(combat_state.attackers.entries@, i as int);
                assert(combat_state.attackers@.dom().contains(a));
            }
            return true;
        }
        i = i + 1;
    }
    let mut k: usize = 0;
    while k < combat_state.blockers.entries.len()
        invariant
            combat_state.wf(),
            creatures.wf(),
            k <= combat_state.blockers.entries@.len(),
            forall|j: int, t: int| 0 <= j < k && 0 <= t < combat_state.blockers.entries@[j].1@.len()
                ==> !entity_strikes_early(creatures@, #[trigger] combat_state.blockers.entries@[j].1@[t]),
        decreases combat_state.blockers.entries@.len() - k,
    {
        let list = &combat_state.blockers.entries[k].1;
        let mut t: usize = 0;
        while t < list.len()
            invariant
                creatures.wf(),
                combat_state.wf(),
                k < combat_state.blockers.entries@.len(),
                *list == combat_state.blockers.entries@[k as int].1,
                t <= list@.len(),
                forall|u: int| 0 <= u < t ==> !entity_strikes_early(creatures@, #[trigger] list@[u]),
            decreases list@.len() - t,
        {
            if creature_strikes_early(creatures, list[t]) {
                proof {
                    crate::entity::lemma_key_index_unique(combat_state.blockers.entries@, k as int);
                    let key = combat_state.blockers.entries@[k as int].0;
                    assert(combat_state.blockers@.dom().contains(key));
                    assert(combat_state.blockers@[key]@[t as int] == list@[t as int]);
                }
                return true;
            }
            t = t + 1;
        }
        k = k + 1;
    }
    proof {
        assert forall|a: EntityId| combat_state.attackers@.dom().contains(a) implies !#[trigger] entity_strikes_early(creatures@, a) by {
            let j = crate::entity::seq_key_index(combat_state.attackers.entries@, a);
            assert(!entity_strikes_early(creatures@, combat_state.attackers.entries@[j].0));
        }
        assert forall|key: EntityId, u: int| combat_state.blockers@.dom().contains(key) && 0 <= u < combat_state.blockers@[key]@.len()
            implies !#[trigger] entity_strikes_early(creatures@, combat_state.blockers@[key]@[u]) by {
            let j = crate::entity::seq_key_index(combat_state.blockers.entries@, key);
            assert(!entity_strikes_early(creatures@, combat_state.blockers.entries@[j].1@[u]));
        }
    }
    false
}

/// What combat damage assignment needs to know of a combatant.
#[derive(Clone, Copy, PartialEq, Eq, Structural, Debug)]
pub struct CombatantInfo {
    pub power: u32,
    pub first_strike: bool,
    pub double_strike: bool,
    pub is_commander: bool,
}

/// The combat information of a card: its power (taken as an unsigned
/// number), whether its text grants first or double strike, and whether it is
/// a commander. Only creature cards have any.
pub open spec fn card_info(c: Card, is_commander: bool) -> Option<CombatantInfo> {
    match c.card_details {
        CardDetails::Creature(cr) => Some(
            CombatantInfo {
                power: cr.power as u32,
                first_strike: has_strike_text(c).0,
                double_strike: has_strike_text(c).1,
                is_commander,
            },
        ),
        CardDetails::Other => None,
    }
}

/// Everything that damage assignment reads.
pub struct DamageContext {
    pub creatures: Map<EntityId, Card>,
    pub commanders: Seq<EntityId>,
    pub attackers: Map<EntityId, EntityId>,
    pub status: Map<EntityId, BlockedStatus>,
    pub blockers: Map<EntityId, Vec<EntityId>>,
}

/// The combat information gathered for `e`: only attacking creatures with a
/// known creature card have some.
pub open spec fn combatant(
    creatures: Map<EntityId, Card>,
    commanders: Seq<EntityId>,
    attackers: Map<EntityId, EntityId>,
    e: EntityId,
) -> Option<CombatantInfo> {
    if attackers.dom().contains(e) && creatures.dom().contains(e) {
        card_info(creatures[e], commanders.contains(e))
    } else {
        None
    }
}

/// The combat information of `e` in a damage context.
pub open spec fn info_of(ctx: DamageContext, e: EntityId) -> Option<CombatantInfo> {
    combatant(ctx.creatures, ctx.commanders, ctx.attackers, e)
}

/// A combatant deals damage in this step: first-strike and double-strike
/// creatures in the first-strike step, the others and double-strike
/// creatures in the regular step, and never with zero power.
pub open spec fn deals_damage_now(i: CombatantInfo, first_strike_step: bool) -> bool {
    (if first_strike_step {
        i.first_strike || i.double_strike
    } else {
        !i.first_strike || i.double_strike
    }) && i.power != 0
}

/// A combat damage event.
pub open spec fn damage_event(source: EntityId, target: EntityId, damage: u32, cmd: bool) -> CombatDamageEvent {
    CombatDamageEvent { source, target, damage, is_combat_damage: true, source_is_commander: cmd }
}

/// The share of `power` that the `i`-th of `n` blockers receives: the power is
/// divided evenly and the first `power % n` blockers receive one more.
pub open spec fn damage_share(power: nat, n: nat, i: int) -> nat {
    power / n + if i < power % n { 1nat } else { 0nat }
}

/// The damage an attacker with `power` deals to its blockers `targets`.
pub open spec fn split_events(source: EntityId, targets: Seq<EntityId>, power: u32, cmd: bool) -> Seq<CombatDamageEvent> {
    Seq::new(targets.len(), |i: int| damage_event(source, targets[i], damage_share(power as nat, targets.len(), i) as u32, cmd))
}

/// The damage attacker `a` deals in this step: to the player it attacks when
/// unblocked, split among its blockers when blocked.
pub open spec fn attacker_events(ctx: DamageContext, first: bool, a: EntityId) -> Seq<CombatDamageEvent> {
    match info_of(ctx, a) {
        None => Seq::empty(),
        Some(i) => if !deals_damage_now(i, first) {
            Seq::empty()
        } else if ctx.status.dom().contains(a) && ctx.status[a] == BlockedStatus::Unblocked {
            seq![damage_event(a, ctx.attackers[a], i.power, i.is_commander)]
        } else if ctx.status.dom().contains(a) && ctx.status[a] == BlockedStatus::Blocked
            && ctx.blockers.dom().contains(a) && ctx.blockers[a]@.len() > 0 {
            split_events(a, ctx.blockers[a]@, i.power, i.is_commander)
        } else {
            Seq::empty()
        },
    }
}

/// Commander damage that attacker `a` records in this step: its full power
/// against the player it attacks, when it is an unblocked commander.
pub open spec fn attacker_updates(ctx: DamageContext, first: bool, a: EntityId) -> Seq<(EntityId, EntityId, u32)> {
    match info_of(ctx, a) {
        None => Seq::empty(),
        Some(i) => if deals_damage_now(i, first) && i.is_commander && ctx.status.dom().contains(a)
            && ctx.status[a] == BlockedStatus::Unblocked {
            seq![(ctx.attackers[a], a, i.power)]
        } else {
            Seq::empty()
        },
    }
}

/// The damage of all attackers listed in `keys`, in that order.
pub open spec fn all_attacker_events(ctx: DamageContext, first: bool, keys: Seq<EntityId>) -> Seq<CombatDamageEvent>
    decreases keys.len(),
{
    if keys.len() == 0 {
        Seq::empty()
    } else {
        all_attacker_events(ctx, first, keys.drop_last()) + attacker_events(ctx, first, keys.last())
    }
}

/// The commander damage of all attackers listed in `keys`, in that order.
pub open spec fn all_attacker_updates(ctx: DamageContext, first: bool, keys: Seq<EntityId>) -> Seq<(EntityId, EntityId, u32)>
    decreases keys.len(),
{
    if keys.len() == 0 {
        Seq::empty()
    } else {
        all_attacker_updates(ctx, first, keys.drop_last()) + attacker_updates(ctx, first, keys.last())
    }
}

/// The damage that blocker `b` deals back to `attacker` in this step (only
/// blockers that are themselves attacking creatures have combat information).
pub open spec fn blocker_event(ctx: DamageContext, first: bool, attacker: EntityId, b: EntityId) -> Seq<CombatDamageEvent> {
    match info_of(ctx, b) {
        Some(i) => if deals_damage_now(i, first) {
            seq![damage_event(b, attacker, i.power, i.is_commander)]
        } else {
            Seq::empty()
        },
        None => Seq::empty(),
    }
}

/// Commander damage recorded when blocker `b` damages `attacker`.
pub open spec fn blocker_update(ctx: DamageContext, first: bool, attacker: EntityId, b: EntityId) -> Seq<(EntityId, EntityId, u32)> {
    match info_of(ctx, b) {
        Some(i) => if deals_damage_now(i, first) && i.is_commander {
            seq![(attacker, b, i.power)]
        } else {
            Seq::empty()
        },
        None => Seq::empty(),
    }
}

/// The damage the blockers `list` of `attacker` deal, in order.
pub open spec fn list_blocker_events(ctx: DamageContext, first: bool, attacker: EntityId, list: Seq<EntityId>) -> Seq<CombatDamageEvent>
    decreases list.len(),
{
    if list.len() == 0 {
        Seq::empty()
    } else {
        list_blocker_events(ctx, first, attacker, list.drop_last()) + blocker_event(ctx, first, attacker, list.last())
    }
}

/// The commander damage the blockers `list` of `attacker` record, in order.
pub open spec fn list_blocker_updates(ctx: DamageContext, first: bool, attacker: EntityId, list: Seq<EntityId>) -> Seq<(EntityId, EntityId, u32)>
    decreases list.len(),
{
    if list.len() == 0 {
        Seq::empty()
    } else {
        list_blocker_updates(ctx, first, attacker, list.drop_last()) + blocker_update(ctx, first, attacker, list.last())
    }
}

/// The damage of all blockers, attacker by attacker in the order of `entries`.
pub open spec fn all_blocker_events(ctx: DamageContext, first: bool, entries: Seq<(EntityId, Vec<EntityId>)>) -> Seq<CombatDamageEvent>
    decreases entries.len(),
{
    if entries.len() == 0 {
        Seq::empty()
    } else {
        all_blocker_events(ctx, first, entries.drop_last())
            + list_blocker_events(ctx, first, entries.last().0, entries.last().1@)
    }
}

/// The commander damage of all blockers, in the order of `entries`.
pub open spec fn all_blocker_updates(ctx: DamageContext, first: bool, entries: Seq<(EntityId, Vec<EntityId>)>) -> Seq<(EntityId, EntityId, u32)>
    decreases entries.len(),
{
    if entries.len() == 0 {
        Seq::empty()
    } else {
        all_blocker_updates(ctx, first, entries.drop_last())
            + list_blocker_updates(ctx, first, entries.last().0, entries.last().1@)
    }
}

/// The context that damage assignment reads from combat and the card data.
pub open spec fn damage_context(cs: CombatState, creatures: Map<EntityId, Card>, commanders: Seq<EntityId>) -> DamageContext {
    DamageContext {
        creatures,
        commanders,
        attackers: cs.attackers@,
        status: cs.blocked_status@,
        blockers: cs.blockers@,
    }
}

/// All combat damage of one damage step: attackers first, in the order they
/// were declared, then blockers.
pub open spec fn step_damage(cs: CombatState, creatures: Map<EntityId, Card>, commanders: Seq<EntityId>, first: bool) -> Seq<CombatDamageEvent> {
    let ctx = damage_context(cs, creatures, commanders);
    all_attacker_events(ctx, first, cs.attackers.key_seq()) + all_blocker_events(ctx, first, cs.blockers.entries@)
}

/// All commander damage of one damage step, as (player, commander, amount).
pub open spec fn step_updates(cs: CombatState, creatures: Map<EntityId, Card>, commanders: Seq<EntityId>, first: bool) -> Seq<(EntityId, EntityId, u32)> {
    let ctx = damage_context(cs, creatures, commanders);
    all_attacker_updates(ctx, first, cs.attackers.key_seq()) + all_blocker_updates(ctx, first, cs.blockers.entries@)
}

/// An element of either part is an element of a concatenation.
proof fn lemma_concat_contains<T>(a: Seq<T>, b: Seq<T>, x: T)
    ensures
        a.contains(x) ==> (a + b).contains(x),
        b.contains(x) ==> (a + b).contains(x),
{
    if a.contains(x) {
        let i = choose|i: int| 0 <= i < a.len() && a[i] == x;
        assert((a + b)[i] == x);
    }
    if b.contains(x) {
        let i = choose|i: int| 0 <= i < b.len() && b[i] == x;
        assert((a + b)[a.len() + i] == x);
    }
}

/// Commander damage `u` = (player, commander, amount) is carried by one of
/// `events`: a combat damage event from that commander to that player of
/// that amount.
pub open spec fn dealt_in(events: Seq<CombatDamageEvent>, u: (EntityId, EntityId, u32)) -> bool {
    events.contains(damage_event(u.1, u.0, u.2, true))
}

/// Each commander damage an attacker records is carried by its own damage,
/// and the attacker is an unblocked attacker hitting the player it attacks.
proof fn lemma_attacker_updates_dealt(ctx: DamageContext, first: bool, a: EntityId)
    ensures
        forall|k: int| 0 <= k < attacker_updates(ctx, first, a).len() ==> {
            let u = #[trigger] attacker_updates(ctx, first, a)[k];
            &&& dealt_in(attacker_events(ctx, first, a), u)
            &&& u.1 == a && ctx.attackers.dom().contains(a) && ctx.status.dom().contains(a)
                && ctx.status[a] == BlockedStatus::Unblocked && u.0 == ctx.attackers[a]
        },
{
    if attacker_updates(ctx, first, a).len() > 0 {
        assert(attacker_events(ctx, first, a)[0] == damage_event(a, ctx.attackers[a], info_of(ctx, a)->0.power, true));
    }
}

/// The same for all attackers listed in `keys`.
proof fn lemma_all_attacker_updates_dealt(ctx: DamageContext, first: bool, keys: Seq<EntityId>)
    ensures
        forall|k: int| 0 <= k < all_attacker_updates(ctx, first, keys).len() ==> {
            let u = #[trigger] all_attacker_updates(ctx, first, keys)[k];
            &&& dealt_in(all_attacker_events(ctx, first, keys), u)
            &&& ctx.attackers.dom().contains(u.1) && ctx.status.dom().contains(u.1)
                && ctx.status[u.1] == BlockedStatus::Unblocked && u.0 == ctx.attackers[u.1]
        },
    decreases keys.len(),
{
    if keys.len() > 0 {
        let init = keys.drop_last();
        let a = keys.last();
        lemma_all_attacker_updates_dealt(ctx, first, init);
        lemma_attacker_updates_dealt(ctx, first, a);
        let ua = all_attacker_updates(ctx, first, init);
        let ub = attacker_updates(ctx, first, a);
        let ea = all_attacker_events(ctx, first, init);
        let eb = attacker_events(ctx, first, a);
        assert forall|k: int| 0 <= k < all_attacker_updates(ctx, first, keys).len() implies {
            let u = #[trigger] all_attacker_updates(ctx, first, keys)[k];
            &&& dealt_in(all_attacker_events(ctx, first, keys), u)
            &&& ctx.attackers.dom().contains(u.1) && ctx.status.dom().contains(u.1)
                && ctx.status[u.1] == BlockedStatus::Unblocked && u.0 == ctx.attackers[u.1]
        } by {
            let u = all_attacker_updates(ctx, first, keys)[k];
            let ev = damage_event(u.1, u.0, u.2, true);
            lemma_concat_contains(ea, eb, ev);
            if k < ua.len() {
                assert(u == ua[k]);
            } else {
                assert(u == ub[k - ua.len()]);
            }
        }
    }
}

/// Each commander damage a list of blockers records is carried by their own
/// damage to the creature they block, and comes from one of them.
proof fn lemma_list_blocker_updates_dealt(ctx: DamageContext, first: bool, attacker: EntityId, list: Seq<EntityId>)
    ensures
        forall|k: int| 0 <= k < list_blocker_updates(ctx, first, attacker, list).len() ==> {
            let u = #[trigger] list_blocker_updates(ctx, first, attacker, list)[k];
            &&& dealt_in(list_blocker_events(ctx, first, attacker, list), u)
            &&& u.0 == attacker && list.contains(u.1)
        },
    decreases list.len(),
{
    if list.len() > 0 {
        let init = list.drop_last();
        let b = list.last();
        lemma_list_blocker_updates_dealt(ctx, first, attacker, init);
        let ua = list_blocker_updates(ctx, first, attacker, init);
        let ub = blocker_update(ctx, first, attacker, b);
        let ea = list_blocker_events(ctx, first, attacker, init);
        let eb = blocker_event(ctx, first, attacker, b);
        assert(list[list.len() - 1] == b);
        assert forall|k: int| 0 <= k < list_blocker_updates(ctx, first, attacker, list).len() implies {
            let u = #[trigger] list_blocker_updates(ctx, first, attacker, list)[k];
            &&& dealt_in(list_blocker_events(ctx, first, attacker, list), u)
            &&& u.0 == attacker && list.contains(u.1)
        } by {
            let u = list_blocker_updates(ctx, first, attacker, list)[k];
            let ev = damage_event(u.1, u.0, u.2, true);
            lemma_concat_contains(ea, eb, ev);
            if k < ua.len() {
                assert(u == ua[k]);
                let j = choose|j: int| 0 <= j < init.len() && init[j] == u.1;
                assert(list[j] == u.1);
            } else {
                assert(u == ub[k - ua.len()]);
                assert(eb[0] == ev);
            }
        }
    }
}

/// The same for all blocker lists of `entries`.
proof fn lemma_all_blocker_updates_dealt(ctx: DamageContext, first: bool, entries: Seq<(EntityId, Vec<EntityId>)>)
    ensures
        forall|k: int| 0 <= k < all_blocker_updates(ctx, first, entries).len() ==> {
            let u = #[trigger] all_blocker_updates(ctx, first, entries)[k];
            &&& dealt_in(all_blocker_events(ctx, first, entries), u)
            &&& exists|j: int| 0 <= j < entries.len() && entries[j].0 == u.0 && (#[trigger] entries[j].1@).contains(u.1)
        },
    decreases entries.len(),
{
    if entries.len() > 0 {
        let init = entries.drop_last();
        let last = entries.last();
        lemma_all_blocker_updates_dealt(ctx, first, init);
        lemma_list_blocker_updates_dealt(ctx, first, last.0, last.1@);
        let ua = all_blocker_updates(ctx, first, init);
        let ub = list_blocker_updates(ctx, first, last.0, last.1@);
        let ea = all_blocker_events(ctx, first, init);
        let eb = list_blocker_events(ctx, first, last.0, last.1@);
        assert forall|k: int| 0 <= k < all_blocker_updates(ctx, first, entries).len() implies {
            let u = #[trigger] all_blocker_updates(ctx, first, entries)[k];
            &&& dealt_in(all_blocker_events(ctx, first, entries), u)
            &&& exists|j: int| 0 <= j < entries.len() && entries[j].0 == u.0 && (#[trigger] entries[j].1@).contains(u.1)
        } by {
            let u = all_blocker_updates(ctx, first, entries)[k];
            let ev = damage_event(u.1, u.0, u.2, true);
            lemma_concat_contains(ea, eb, ev);
            if k < ua.len() {
                assert(u == ua[k]);
                let j = choose|j: int| 0 <= j < init.len() && init[j].0 == u.0 && (#[trigger] init[j].1@).contains(u.1);
                assert(entries[j] == init[j]);
            } else {
                assert(u == ub[k - ua.len()]);
                assert(entries[entries.len() - 1] == last);
            }
        }
    }
}

/// Commander damage event `e` is recorded among `updates` against its target.
pub open spec fn recorded_in(updates: Seq<(EntityId, EntityId, u32)>, e: CombatDamageEvent) -> bool {
    updates.contains((e.target, e.source, e.damage))
}

/// An unblocked attacking commander records the damage it deals.
proof fn lemma_attacker_events_recorded(ctx: DamageContext, first: bool, a: EntityId)
    ensures
        forall|k: int| 0 <= k < attacker_events(ctx, first, a).len() ==> {
            let e = #[trigger] attacker_events(ctx, first, a)[k];
            e.source_is_commander && ctx.status.dom().contains(e.source) && ctx.status[e.source]
                == BlockedStatus::Unblocked ==> recorded_in(attacker_updates(ctx, first, a), e)
        },
{
    assert forall|k: int| 0 <= k < attacker_events(ctx, first, a).len() implies {
        let e = #[trigger] attacker_events(ctx, first, a)[k];
        e.source_is_commander && ctx.status.dom().contains(e.source) && ctx.status[e.source]
            == BlockedStatus::Unblocked ==> recorded_in(attacker_updates(ctx, first, a), e)
    } by {
        let e = attacker_events(ctx, first, a)[k];
        if e.source_is_commander && ctx.status.dom().contains(e.source) && ctx.status[e.source] == BlockedStatus::Unblocked {
            assert(e.source == a);
            assert(attacker_updates(ctx, first, a)[0] == (e.target, e.source, e.damage));
        }
    }
}

/// The same for all attackers listed in `keys`.
proof fn lemma_all_attacker_events_recorded(ctx: DamageContext, first: bool, keys: Seq<EntityId>)
    ensures
        forall|k: int| 0 <= k < all_attacker_events(ctx, first, keys).len() ==> {
            let e = #[trigger] all_attacker_events(ctx, first, keys)[k];
            e.source_is_commander && ctx.status.dom().contains(e.source) && ctx.status[e.source]
                == BlockedStatus::Unblocked ==> recorded_in(all_attacker_updates(ctx, first, keys), e)
        },
    decreases keys.len(),
{
    if keys.len() > 0 {
        let init = keys.drop_last();
        let a = keys.last();
        lemma_all_attacker_events_recorded(ctx, first, init);
        lemma_attacker_events_recorded(ctx, first, a);
        let ua = all_attacker_updates(ctx, first, init);
        let ub = attacker_updates(ctx, first, a);
        let ea = all_attacker_events(ctx, first, init);
        let eb = attacker_events(ctx, first, a);
        assert forall|k: int| 0 <= k < all_attacker_events(ctx, first, keys).len() implies {
            let e = #[trigger] all_attacker_events(ctx, first, keys)[k];
            e.source_is_commander && ctx.status.dom().contains(e.source) && ctx.status[e.source]
                == BlockedStatus::Unblocked ==> recorded_in(all_attacker_updates(ctx, first, keys), e)
        } by {
            let e = all_attacker_events(ctx, first, keys)[k];
            lemma_concat_contains(ua, ub, (e.target, e.source, e.damage));
            if k < ea.len() {
                assert(e == ea[k]);
            } else {
                assert(e == eb[k - ea.len()]);
            }
        }
    }
}

/// A blocking commander records the damage it deals.
proof fn lemma_list_blocker_events_recorded(ctx: DamageContext, first: bool, attacker: EntityId, list: Seq<EntityId>)
    ensures
        forall|k: int| 0 <= k < list_blocker_events(ctx, first, attacker, list).len() ==> {
            let e = #[trigger] list_blocker_events(ctx, first, attacker, list)[k];
            e.source_is_commander ==> recorded_in(list_blocker_updates(ctx, first, attacker, list), e)
        },
    decreases list.len(),
{
    if list.len() > 0 {
        let init = list.drop_last();
        let b = list.last();
        lemma_list_blocker_events_recorded(ctx, first, attacker, init);
        let ua = list_blocker_updates(ctx, first, attacker, init);
        let ub = blocker_update(ctx, first, attacker, b);
        let ea = list_blocker_events(ctx, first, attacker, init);
        let eb = blocker_event(ctx, first, attacker, b);
        assert forall|k: int| 0 <= k < list_blocker_events(ctx, first, attacker, list).len() implies {
            let e = #[trigger] list_blocker_events(ctx, first, attacker, list)[k];
            e.source_is_commander ==> recorded_in(list_blocker_updates(ctx, first, attacker, list), e)
        } by {
            let e = list_blocker_events(ctx, first, attacker, list)[k];
            lemma_concat_contains(ua, ub, (e.target, e.source, e.damage));
            if k < ea.len() {
                assert(e == ea[k]);
            } else {
                assert(e == eb[k - ea.len()]);
                if e.source_is_commander {
                    assert(ub[0] == (e.target, e.source, e.damage));
                }
            }
        }
    }
}

/// The same for all blocker lists of `entries`.
proof fn lemma_all_blocker_events_recorded(ctx: DamageContext, first: bool, entries: Seq<(EntityId, Vec<EntityId>)>)
    ensures
        forall|k: int| 0 <= k < all_blocker_events(ctx, first, entries).len() ==> {
            let e = #[trigger] all_blocker_events(ctx, first, entries)[k];
            e.source_is_commander ==> recorded_in(all_blocker_updates(ctx, first, entries), e)
        },
    decreases entries.len(),
{
    if entries.len() > 0 {
        let init = entries.drop_last();
        let last = entries.last();
        lemma_all_blocker_events_recorded(ctx, first, init);
        lemma_list_blocker_events_recorded(ctx, first, last.0, last.1@);
        let ua = all_blocker_updates(ctx, first, init);
        let ub = list_blocker_updates(ctx, first, last.0, last.1@);
        let ea = all_blocker_events(ctx, first, init);
        let eb = list_blocker_events(ctx, first, last.0, last.1@);
        assert forall|k: int| 0 <= k < all_blocker_events(ctx, first, entries).len() implies {
            let e = #[trigger] all_blocker_events(ctx, first, entries)[k];
            e.source_is_commander ==> recorded_in(all_blocker_updates(ctx, first, entries), e)
        } by {
            let e = all_blocker_events(ctx, first, entries)[k];
            lemma_concat_contains(ua, ub, (e.target, e.source, e.damage));
            if k < ea.len() {
                assert(e == ea[k]);
            } else {
                assert(e == eb[k - ea.len()]);
            }
        }
    }
}

/// Commander damage that lands is recorded: every damage event of a damage
/// step from a commander that is blocking, or from an unblocked attacking
/// commander, is recorded as (target, commander, amount).
pub proof fn law_commander_damage_dealt_is_recorded(
    cs: CombatState,
    creatures: Map<EntityId, Card>,
    commanders: Seq<EntityId>,
    first: bool,
)
    ensures
        forall|k: int| 0 <= k < step_damage(cs, creatures, commanders, first).len() ==> {
            let e = #[trigger] step_damage(cs, creatures, commanders, first)[k];
            e.source_is_commander && (k >= all_attacker_events(damage_context(cs, creatures, commanders), first, cs.attackers.key_seq()).len()
                || (cs.blocked_status@.dom().contains(e.source) && cs.blocked_status@[e.source] == BlockedStatus::Unblocked))
                ==> step_updates(cs, creatures, commanders, first).contains((e.target, e.source, e.damage))
        },
{
    let ctx = damage_context(cs, creatures, commanders);
    let keys = cs.attackers.key_seq();
    let entries = cs.blockers.entries@;
    lemma_all_attacker_events_recorded(ctx, first, keys);
    lemma_all_blocker_events_recorded(ctx, first, entries);
    let ua = all_attacker_updates(ctx, first, keys);
    let ub = all_blocker_updates(ctx, first, entries);
    let ea = all_attacker_events(ctx, first, keys);
    let eb = all_blocker_events(ctx, first, entries);
    assert forall|k: int| 0 <= k < step_damage(cs, creatures, commanders, first).len() implies {
        let e = #[trigger] step_damage(cs, creatures, commanders, first)[k];
        e.source_is_commander && (k >= ea.len() || (cs.blocked_status@.dom().contains(e.source)
            && cs.blocked_status@[e.source] == BlockedStatus::Unblocked))
            ==> step_updates(cs, creatures, commanders, first).contains((e.target, e.source, e.damage))
    } by {
        let e = step_damage(cs, creatures, commanders, first)[k];
        lemma_concat_contains(ua, ub, (e.target, e.source, e.damage));
        if k < ea.len() {
            assert(e == ea[k]);
        } else {
            assert(e == eb[k - ea.len()]);
        }
    }
}

/// Commander damage is recorded only where a commander dealt it: every
/// recorded (player, commander, amount) of a damage step is matched by a
/// combat damage event of that step from that commander to that player of
/// that amount, and comes either from an unblocked attacking commander
/// against the player it attacks or from a commander blocking the creature
/// it is recorded against. A blocked commander records nothing against the
/// player it attacks.
pub proof fn law_commander_damage_only_where_dealt(
    cs: CombatState,
    creatures: Map<EntityId, Card>,
    commanders: Seq<EntityId>,
    first: bool,
)
    requires
        cs.wf(),
    ensures
        forall|k: int| 0 <= k < step_updates(cs, creatures, commanders, first).len() ==> {
            let u = #[trigger] step_updates(cs, creatures, commanders, first)[k];
            &&& step_damage(cs, creatures, commanders, first).contains(
                CombatDamageEvent { source: u.1, target: u.0, damage: u.2, is_combat_damage: true, source_is_commander: true },
            )
            &&& (cs.attackers@.dom().contains(u.1) && cs.blocked_status@.dom().contains(u.1)
                && cs.blocked_status@[u.1] == BlockedStatus::Unblocked && u.0 == cs.attackers@[u.1])
                || (cs.blockers@.dom().contains(u.0) && cs.blockers@[u.0]@.contains(u.1))
        },
{
    let ctx = damage_context(cs, creatures, commanders);
    let keys = cs.attackers.key_seq();
    let entries = cs.blockers.entries@;
    lemma_all_attacker_updates_dealt(ctx, first, keys);
    lemma_all_blocker_updates_dealt(ctx, first, entries);
    let ua = all_attacker_updates(ctx, first, keys);
    let ub = all_blocker_updates(ctx, first, entries);
    let ea = all_attacker_events(ctx, first, keys);
    let eb = all_blocker_events(ctx, first, entries);
    assert forall|k: int| 0 <= k < step_updates(cs, creatures, commanders, first).len() implies {
        let u = #[trigger] step_updates(cs, creatures, commanders, first)[k];
        &&& step_damage(cs, creatures, commanders, first).contains(
            CombatDamageEvent { source: u.1, target: u.0, damage: u.2, is_combat_damage: true, source_is_commander: true },
        )
        &&& (cs.attackers@.dom().contains(u.1) && cs.blocked_status@.dom().contains(u.1)
            && cs.blocked_status@[u.1] == BlockedStatus::Unblocked && u.0 == cs.attackers@[u.1])
            || (cs.blockers@.dom().contains(u.0) && cs.blockers@[u.0]@.contains(u.1))
    } by {
        let u = step_updates(cs, creatures, commanders, first)[k];
        let ev = damage_event(u.1, u.0, u.2, true);
        lemma_concat_contains(ea, eb, ev);
        if k < ua.len() {
            assert(u == ua[k]);
        } else {
            assert(u == ub[k - ua.len()]);
            let j = choose|j: int| 0 <= j < entries.len() && entries[j].0 == u.0 && (#[trigger] entries[j].1@).contains(u.1);
            crate::entity::lemma_key_index_unique(entries, j);
            assert(cs.blockers@.dom().contains(u.0));
            assert(cs.blockers@[u.0] == entries[j].1);
        }
    }
}

/// Commander damage per player and commander.
pub open spec fn commander_damage_view(m: Map<EntityId, EntityMap<u32>>) -> Map<EntityId, Map<EntityId, u32>> {
    Map::new(|k: EntityId| m.dom().contains(k), |k: EntityId| m[k]@)
}

/// The commander damage recorded so far for (player, commander).
pub open spec fn recorded(m: Map<EntityId, Map<EntityId, u32>>, player: EntityId, commander: EntityId) -> int {
    if m.dom().contains(player) && m[player].dom().contains(commander) {
        m[player][commander] as int
    } else {
        0
    }
}

/// Adds `amount` to the commander damage of (player, commander).
pub open spec fn add_recorded(m: Map<EntityId, Map<EntityId, u32>>, u: (EntityId, EntityId, u32)) -> Map<EntityId, Map<EntityId, u32>> {
    let inner = if m.dom().contains(u.0) { m[u.0] } else { Map::empty() };
    m.insert(u.0, inner.insert(u.1, (recorded(m, u.0, u.1) + u.2) as u32))
}

/// The commander damage after the updates `ups`, in order.
pub open spec fn add_all_recorded(m: Map<EntityId, Map<EntityId, u32>>, ups: Seq<(EntityId, EntityId, u32)>) -> Map<EntityId, Map<EntityId, u32>>
    decreases ups.len(),
{
    if ups.len() == 0 {
        m
    } else {
        add_recorded(add_all_recorded(m, ups.drop_last()), ups.last())
    }
}

/// No running total overflows while the updates `ups` are applied.
pub open spec fn updates_fit(m: Map<EntityId, Map<EntityId, u32>>, ups: Seq<(EntityId, EntityId, u32)>) -> bool
    decreases ups.len(),
{
    if ups.len() == 0 {
        true
    } else {
        updates_fit(m, ups.drop_last())
            && recorded(add_all_recorded(m, ups.drop_last()), ups.last().0, ups.last().1) + ups.last().2 <= u32::MAX
    }
}

/// Euclidean division of `power` by `n`.
proof fn lemma_split_total(power: nat, n: nat)
    requires
        n > 0,
    ensures
        (power / n) * n + power % n == power,
        power % n < n,
{
    assert((power / n) * n + power % n == power && power % n < n) by (nonlinear_arith)
        requires n > 0;
}

/// The shares of damage given to the blockers add up to the attacker's power.
pub proof fn law_damage_split_sums_to_power(power: nat, n: nat)
    requires
        n > 0,
    ensures
        share_sum(power, n, n) == power,
{
    lemma_share_sum_prefix(power, n, n);
    lemma_split_total(power, n);
}

/// The sum of the first `k` shares of `power` among `n`.
pub open spec fn share_sum(power: nat, n: nat, k: nat) -> nat
    decreases k,
{
    if k == 0 {
        0
    } else {
        share_sum(power, n, (k - 1) as nat) + damage_share(power, n, k - 1)
    }
}

proof fn lemma_share_sum_prefix(power: nat, n: nat, k: nat)
    requires
        n > 0,
    ensures
        share_sum(power, n, k) == (power / n) * k + if k < power % n { k } else { power % n },
    decreases k,
{
    if k > 0 {
        lemma_share_sum_prefix(power, n, (k - 1) as nat);
        let q = power / n;
        let r = power % n;
        assert(q * k == q * (k - 1) + q) by (nonlinear_arith)
            requires k >= 1;
        assert(share_sum(power, n, k) == share_sum(power, n, (k - 1) as nat) + q + if k - 1 < r { 1nat } else { 0nat });
        assert(share_sum(power, n, k) == q * k + if k < r { k } else { r });
    } else {
        assert((power / n) * 0 == 0) by (nonlinear_arith);
    }
}

/// Every list of blockers is short enough to count in 32 bits.
pub open spec fn blockers_fit(m: Map<EntityId, Vec<EntityId>>) -> bool {
    forall|k: EntityId| #[trigger] m.dom().contains(k) ==> m[k]@.len() <= u32::MAX
}

/// Every inner map of commander damage is well formed.
pub open spec fn nested_wf(m: Map<EntityId, EntityMap<u32>>) -> bool {
    forall|k: EntityId| #[trigger] m.dom().contains(k) ==> m[k].wf()
}

/// The combat information of `e`, when it is an attacking creature.
fn combatant_info(
    creatures: &EntityMap<Card>,
    commanders: &Vec<EntityId>,
    attackers: &EntityMap<EntityId>,
    e: EntityId,
) -> (r: Option<CombatantInfo>)
    requires
        creatures.wf(),
        attackers.wf(),
    ensures
        r == combatant(creatures@, commanders@, attackers@, e),
{
    if !attackers.contains_key(e) {
        return None;
    }
    match creatures.get(e) {
        Some(card) => match &card.card_details {
            CardDetails::Creature(cr) => Some(
                CombatantInfo {
                    power: cr.power as u32,
                    first_strike: text_contains(card.rules_text.as_str(), "first strike"),
                    double_strike: text_contains(card.rules_text.as_str(), "double strike"),
                    is_commander: vec_contains(commanders, e),
                },
            ),
            CardDetails::Other => None,
        },
        None => None,
    }
}

/// Whether a combatant deals damage in this step.
fn deals_now(i: CombatantInfo, first_strike_step: bool) -> (b: bool)
    ensures
        b == deals_damage_now(i, first_strike_step),
{
    let in_step = if first_strike_step {
        i.first_strike || i.double_strike
    } else {
        !i.first_strike || i.double_strike
    };
    in_step && i.power != 0
}

/// Appends the damage an attacker with `power` deals to its blockers `targets`.
fn push_split_damage(
    source: EntityId,
    targets: &Vec<EntityId>,
    power: u32,
    cmd: bool,
    events: &mut Vec<CombatDamageEvent>,
)
    requires
        0 < targets@.len() <= u32::MAX,
    ensures
        final(events)@ == old(events)@ + split_events(source, targets@, power, cmd),
{
    let n: u32 = targets.len() as u32;
    let base: u32 = power / n;
    let rem: u32 = power % n;
    proof {
        lemma_split_total(power as nat, n as nat);
        assert(base <= base * n) by (nonlinear_arith)
            requires n >= 1;
    }
    let ghost all = split_events(source, targets@, power, cmd);
    let mut i: usize = 0;
    while i < targets.len()
        invariant
            n == targets@.len(),
            0 < n,
            base == power / n,
            rem == power % n,
            base * n + rem == power,
            rem < n,
            base <= base * n,
            all == split_events(source, targets@, power, cmd),
            i <= targets@.len(),
            events@ == old(events)@ + all.take(i as int),
        decreases targets@.len() - i,
    {
        let d: u32 = if i < rem as usize {
            base + 1
        } else {
            base
        };
        events.push(
            CombatDamageEvent {
                source,
                target: targets[i],
                damage: d,
                is_combat_damage: true,
                source_is_commander: cmd,
            },
        );
        proof {
            assert(d == damage_share(power as nat, n as nat, i as int));
            assert(all.take(i + 1) =~= all.take(i as int).push(all[i as int]));
        }
        i = i + 1;
    }
    assert(all.take(all.len() as int) =~= all);
}

/// Appends the damage and commander damage of attacker `a` in this step.
fn push_attacker_damage(
    cs: &CombatState,
    creatures: &EntityMap<Card>,
    commanders: &Vec<EntityId>,
    first: bool,
    a: EntityId,
    events: &mut Vec<CombatDamageEvent>,
    updates: &mut Vec<(EntityId, EntityId, u32)>,
)
    requires
        cs.wf(),
        creatures.wf(),
        blockers_fit(cs.blockers@),
    ensures
        final(events)@ == old(events)@ + attacker_events(damage_context(*cs, creatures@, commanders@), first, a),
        final(updates)@ == old(updates)@ + attacker_updates(damage_context(*cs, creatures@, commanders@), first, a),
{
    let ghost ctx = damage_context(*cs, creatures@, commanders@);
    match combatant_info(creatures, commanders, &cs.attackers, a) {
        None => {
            assert(old(events)@ + Seq::<CombatDamageEvent>::empty() =~= old(events)@);
            assert(old(updates)@ + Seq::<(EntityId, EntityId, u32)>::empty() =~= old(updates)@);
        },
        Some(info) => {
            if !deals_now(info, first) {
                assert(old(events)@ + Seq::<CombatDamageEvent>::empty() =~= old(events)@);
                assert(old(updates)@ + Seq::<(EntityId, EntityId, u32)>::empty() =~= old(updates)@);
                return;
            }
            let defender: EntityId = match cs.attackers.get(a) {
                Some(d) => *d,
                None => {
                    return;
                },
            };
            match cs.blocked_status.get(a) {
                Some(BlockedStatus::Unblocked) => {
                    events.push(
                        CombatDamageEvent {
                            source: a,
                            target: defender,
                            damage: info.power,
                            is_combat_damage: true,
                            source_is_commander: info.is_commander,
                        },
                    );
                    assert(events@ =~= old(events)@ + attacker_events(ctx, first, a));
                    if info.is_commander {
                        updates.push((defender, a, info.power));
                        assert(updates@ =~= old(updates)@ + attacker_updates(ctx, first, a));
                    } else {
                        assert(old(updates)@ + Seq::<(EntityId, EntityId, u32)>::empty() =~= old(updates)@);
                    }
                },
                Some(BlockedStatus::Blocked) => {
                    assert(old(updates)@ + Seq::<(EntityId, EntityId, u32)>::empty() =~= old(updates)@);
                    match cs.blockers.get(a) {
                        Some(list) => {
                            if list.len() > 0 {
                                push_split_damage(a, list, info.power, info.is_commander, events);
                            } else {
                                assert(old(events)@ + Seq::<CombatDamageEvent>::empty() =~= old(events)@);
                            }
                        },
                        None => {
                            assert(old(events)@ + Seq::<CombatDamageEvent>::empty() =~= old(events)@);
                        },
                    }
                },
                _ => {
                    assert(old(events)@ + Seq::<CombatDamageEvent>::empty() =~= old(events)@);
                    assert(old(updates)@ + Seq::<(EntityId, EntityId, u32)>::empty() =~= old(updates)@);
                },
            }
        },
    }
}

/// Appends the damage and commander damage that the blockers `list` of
/// `attacker` deal back to it in this step.
fn push_blocker_damage(
    cs: &CombatState,
    creatures: &EntityMap<Card>,
    commanders: &Vec<EntityId>,
    first: bool,
    attacker: EntityId,
    list: &Vec<EntityId>,
    events: &mut Vec<CombatDamageEvent>,
    updates: &mut Vec<(EntityId, EntityId, u32)>,
)
    requires
        cs.wf(),
        creatures.wf(),
    ensures
        final(events)@ == old(events)@ + list_blocker_events(damage_context(*cs, creatures@, commanders@), first, attacker, list@),
        final(updates)@ == old(updates)@ + list_blocker_updates(damage_context(*cs, creatures@, commanders@), first, attacker, list@),
{
    let ghost ctx = damage_context(*cs, creatures@, commanders@);
    let mut i: usize = 0;
    while i < list.len()
        invariant
            cs.wf(),
            creatures.wf(),
            ctx == damage_context(*cs, creatures@, commanders@),
            i <= list@.len(),
            events@ == old(events)@ + list_blocker_events(ctx, first, attacker, list@.take(i as int)),
            updates@ == old(updates)@ + list_blocker_updates(ctx, first, attacker, list@.take(i as int)),
        decreases list@.len() - i,
    {
        let b = list[i];
        let ghost ev0 = events@;
        let ghost up0 = updates@;
        proof {
            assert(list@.take(i + 1).drop_last() =~= list@.take(i as int));
        }
        match combatant_info(creatures, commanders, &cs.attackers, b) {
            Some(info) => {
                if deals_now(info, first) {
                    events.push(
                        CombatDamageEvent {
                            source: b,
                            target: attacker,
                            damage: info.power,
                            is_combat_damage: true,
                            source_is_commander: info.is_commander,
                        },
                    );
                    if info.is_commander {
                        updates.push((attacker, b, info.power));
                    }
                }
            },
            None => {},
        }
        proof {
            assert(events@ =~= ev0 + blocker_event(ctx, first, attacker, b));
            assert(updates@ =~= up0 + blocker_update(ctx, first, attacker, b));
            assert(events@ =~= old(events)@ + list_blocker_events(ctx, first, attacker, list@.take(i + 1)));
            assert(updates@ =~= old(updates)@ + list_blocker_updates(ctx, first, attacker, list@.take(i + 1)));
        }
        i = i + 1;
    }
    assert(list@.take(list@.len() as int) =~= list@);
}

/// All combat damage and commander damage of one damage step.
fn compute_step_damage(
    cs: &CombatState,
    creatures: &EntityMap<Card>,
    commanders: &Vec<EntityId>,
    first: bool,
) -> (r: (Vec<CombatDamageEvent>, Vec<(EntityId, EntityId, u32)>))
    requires
        cs.wf(),
        creatures.wf(),
        blockers_fit(cs.blockers@),
    ensures
        r.0@ == step_damage(*cs, creatures@, commanders@, first),
        r.1@ == step_updates(*cs, creatures@, commanders@, first),
{
    let ghost ctx = damage_context(*cs, creatures@, commanders@);
    let ghost keys = cs.attackers.key_seq();
    let mut events: Vec<CombatDamageEvent> = Vec::new();
    let mut updates: Vec<(EntityId, EntityId, u32)> = Vec::new();
    let mut i: usize = 0;
    while i < cs.attackers.entries.len()
        invariant
            cs.wf(),
            creatures.wf(),
            blockers_fit(cs.blockers@),
            ctx == damage_context(*cs, creatures@, commanders@),
            keys == cs.attackers.key_seq(),
            keys.len() == cs.attackers.entries@.len(),
            i <= keys.len(),
            events@ == all_attacker_events(ctx, first, keys.take(i as int)),
            updates@ == all_attacker_updates(ctx, first, keys.take(i as int)),
        decreases keys.len() - i,
    {
        let a = cs.attackers.entries[i].0;
        proof {
            assert(keys.take(i + 1).drop_last() =~= keys.take(i as int));
            assert(keys[i as int] == a);
        }
        push_attacker_damage(cs, creatures, commanders, first, a, &mut events, &mut updates);
        i = i + 1;
    }
    assert(keys.take(keys.len() as int) =~= keys);
    let ghost attacker_part = events@;
    let ghost attacker_ups = updates@;
    let ghost entries = cs.blockers.entries@;
    let mut k: usize = 0;
    while k < cs.blockers.entries.len()
        invariant
            cs.wf(),
            creatures.wf(),
            ctx == damage_context(*cs, creatures@, commanders@),
            entries == cs.blockers.entries@,
            k <= entries.len(),
            events@ == attacker_part + all_blocker_events(ctx, first, entries.take(k as int)),
            updates@ == attacker_ups + all_blocker_updates(ctx, first, entries.take(k as int)),
        decreases entries.len() - k,
    {
        let attacker = cs.blockers.entries[k].0;
        let list = &cs.blockers.entries[k].1;
        proof {
            assert(entries.take(k + 1).drop_last() =~= entries.take(k as int));
        }
        let ghost ev0 = events@;
        let ghost up0 = updates@;
        push_blocker_damage(cs, creatures, commanders, first, attacker, list, &mut events, &mut updates);
        proof {
            assert(events@ =~= attacker_part + all_blocker_events(ctx, first, entries.take(k + 1)));
            assert(updates@ =~= attacker_ups + all_blocker_updates(ctx, first, entries.take(k + 1)));
        }
        k = k + 1;
    }
    assert(entries.take(entries.len() as int) =~= entries);
    (events, updates)
}

/// Adds `amount` to the commander damage that `commander` has dealt `player`.
fn add_commander_damage(m: &mut EntityMap<EntityMap<u32>>, player: EntityId, commander: EntityId, amount: u32)
    requires
        old(m).wf(),
        nested_wf(old(m)@),
        recorded(commander_damage_view(old(m)@), player, commander) + amount <= u32::MAX,
    ensures
        final(m).wf(),
        nested_wf(final(m)@),
        commander_damage_view(final(m)@) == add_recorded(commander_damage_view(old(m)@), (player, commander, amount)),
{
    let ghost v0 = commander_damage_view(old(m)@);
    let mut inner = match m.remove(player) {
        Some(x) => x,
        None => EntityMap::new(),
    };
    let cur: u32 = match inner.get(commander) {
        Some(v) => *v,
        None => 0,
    };
    assert(cur == recorded(v0, player, commander));
    inner.insert(commander, cur + amount);
    let ghost inner_view = inner@;
    m.insert(player, inner);
    proof {
        let v1 = commander_damage_view(m@);
        let expect = add_recorded(v0, (player, commander, amount));
        assert(v1.dom() =~= expect.dom());
        assert forall|k: EntityId| v1.dom().contains(k) implies #[trigger] v1[k] == expect[k] by {
            if k == player {
                assert(v1[k] == inner_view);
                let before = if v0.dom().contains(player) { v0[player] } else { Map::<EntityId, u32>::empty() };
                assert(inner_view =~= before.insert(commander, (cur + amount) as u32));
            }
        }
        assert(v1 =~= expect);
    }
}

/// A prefix of updates that fit also fits.
proof fn lemma_updates_fit_prefix(m: Map<EntityId, Map<EntityId, u32>>, ups: Seq<(EntityId, EntityId, u32)>, k: int)
    requires
        updates_fit(m, ups),
        0 <= k <= ups.len(),
    ensures
        updates_fit(m, ups.take(k)),
    decreases ups.len(),
{
    if k == ups.len() {
        assert(ups.take(k) =~= ups);
    } else {
        lemma_updates_fit_prefix(m, ups.drop_last(), k);
        assert(ups.drop_last().take(k) =~= ups.take(k));
    }
}

/// Applies commander damage updates in order.
fn apply_commander_updates(m: &mut EntityMap<EntityMap<u32>>, ups: &Vec<(EntityId, EntityId, u32)>)
    requires
        old(m).wf(),
        nested_wf(old(m)@),
        updates_fit(commander_damage_view(old(m)@), ups@),
    ensures
        final(m).wf(),
        nested_wf(final(m)@),
        commander_damage_view(final(m)@) == add_all_recorded(commander_damage_view(old(m)@), ups@),
{
    let ghost v0 = commander_damage_view(old(m)@);
    let mut i: usize = 0;
    while i < ups.len()
        invariant
            m.wf(),
            nested_wf(m@),
            updates_fit(v0, ups@),
            i <= ups@.len(),
            commander_damage_view(m@) == add_all_recorded(v0, ups@.take(i as int)),
        decreases ups@.len() - i,
    {
        let (p, c, amount) = ups[i];
        proof {
            lemma_updates_fit_prefix(v0, ups@, i + 1);
            assert(ups@.take(i + 1).drop_last() =~= ups@.take(i as int));
        }
        add_commander_damage(m, p, c, amount);
        i = i + 1;
    }
    assert(ups@.take(ups@.len() as int) =~= ups@);
}

/// Something the damage step spawns: a damage event, the request for the
/// regular damage step after first strike, or the end of combat damage.
#[derive(Clone, Copy, PartialEq, Eq, Structural, Debug)]
pub enum CombatSpawn {
    Damage(CombatDamageEvent),
    NextDamageStep(AssignCombatDamageEvent),
    DamageComplete(CombatDamageCompleteEvent),
}

/// What one damage step spawns: its damage events in order, then the regular
/// damage step after a first-strike step, or the end of combat damage.
pub open spec fn step_spawns(cs: CombatState, creatures: Map<EntityId, Card>, commanders: Seq<EntityId>, first: bool) -> Seq<CombatSpawn> {
    step_damage(cs, creatures, commanders, first).map_values(|e: CombatDamageEvent| CombatSpawn::Damage(e)).push(
        if first {
            CombatSpawn::NextDamageStep(AssignCombatDamageEvent { is_first_strike: false })
        } else {
            CombatSpawn::DamageComplete(CombatDamageCompleteEvent)
        },
    )
}

/// What the damage steps `events` spawn, in order.
pub open spec fn all_step_spawns(
    cs: CombatState,
    creatures: Map<EntityId, Card>,
    commanders: Seq<EntityId>,
    events: Seq<AssignCombatDamageEvent>,
) -> Seq<CombatSpawn>
    decreases events.len(),
{
    if events.len() == 0 {
        Seq::empty()
    } else {
        all_step_spawns(cs, creatures, commanders, events.drop_last())
            + step_spawns(cs, creatures, commanders, events.last().is_first_strike)
    }
}

/// The commander damage recorded by the damage steps `events`, in order.
pub open spec fn all_step_updates(
    cs: CombatState,
    creatures: Map<EntityId, Card>,
    commanders: Seq<EntityId>,
    events: Seq<AssignCombatDamageEvent>,
) -> Seq<(EntityId, EntityId, u32)>
    decreases events.len(),
{
    if events.len() == 0 {
        Seq::empty()
    } else {
        all_step_updates(cs, creatures, commanders, events.drop_last())
            + step_updates(cs, creatures, commanders, events.last().is_first_strike)
    }
}

/// Some event asks for the first-strike damage step.
pub open spec fn any_first_strike(events: Seq<AssignCombatDamageEvent>) -> bool {
    exists|i: int| 0 <= i < events.len() && #[trigger] events[i].is_first_strike
}

/// Assigns combat damage for each damage-step request in `events`.
///
/// In each step every attacker that deals damage in that step (first strike
/// and double strike creatures in the first-strike step; the others and
/// double strike creatures in the regular step; never with zero power) hits
/// the player it attacks when unblocked, or splits its power evenly among its
/// blockers when blocked, the first `power % n` of the `n` blockers taking one
/// more. Each blocker that is itself an attacking creature then hits back.
/// The step's damage becomes the pending damage and is spawned; unblocked
/// commanders and commander blockers add to the commander damage of this
/// combat. A first-strike step is followed by a request for the regular step;
/// the regular step ends combat damage.
pub fn assign_combat_damage_system(
    combat_state: &mut CombatState,
    events: &Vec<AssignCombatDamageEvent>,
    creatures: &EntityMap<Card>,
    commanders: &Vec<EntityId>,
) -> (spawned: Vec<CombatSpawn>)
    requires
        old(combat_state).wf(),
        creatures.wf(),
        blockers_fit(old(combat_state).blockers@),
        updates_fit(
            commander_damage_view(old(combat_state).commander_damage_this_combat@),
            all_step_updates(*old(combat_state), creatures@, commanders@, events@),
        ),
    ensures
        final(combat_state).wf(),
        *final(combat_state) == (CombatState {
            pending_combat_damage: final(combat_state).pending_combat_damage,
            commander_damage_this_combat: final(combat_state).commander_damage_this_combat,
            in_combat_damage: final(combat_state).in_combat_damage,
            combat_damage_step_number: final(combat_state).combat_damage_step_number,
            ..*old(combat_state)
        }),
        spawned@ == all_step_spawns(*old(combat_state), creatures@, commanders@, events@),
        commander_damage_view(final(combat_state).commander_damage_this_combat@) == add_all_recorded(
            commander_damage_view(old(combat_state).commander_damage_this_combat@),
            all_step_updates(*old(combat_state), creatures@, commanders@, events@),
        ),
        events@.len() == 0 ==> final(combat_state).pending_combat_damage@ == old(combat_state).pending_combat_damage@,
        events@.len() > 0 ==> final(combat_state).pending_combat_damage@
            == step_damage(*old(combat_state), creatures@, commanders@, events@.last().is_first_strike),
        final(combat_state).in_combat_damage == if events@.len() == 0 {
            old(combat_state).in_combat_damage
        } else {
            events@.last().is_first_strike
        },
        final(combat_state).combat_damage_step_number == if any_first_strike(events@) {
            2
        } else {
            old(combat_state).combat_damage_step_number
        },
{
    let ghost cs0 = *old(combat_state);
    let ghost v0 = commander_damage_view(old(combat_state).commander_damage_this_combat@);
    let ghost all_ups = all_step_updates(cs0, creatures@, commanders@, events@);
    let mut spawned: Vec<CombatSpawn> = Vec::new();
    let mut i: usize = 0;
    while i < events.len()
        invariant
            combat_state.wf(),
            creatures.wf(),
            blockers_fit(cs0.blockers@),
            cs0.wf(),
            v0 == commander_damage_view(cs0.commander_damage_this_combat@),
            all_ups == all_step_updates(cs0, creatures@, commanders@, events@),
            updates_fit(v0, all_ups),
            i <= events@.len(),
            *combat_state == (CombatState {
                pending_combat_damage: combat_state.pending_combat_damage,
                commander_damage_this_combat: combat_state.commander_damage_this_combat,
                in_combat_damage: combat_state.in_combat_damage,
                combat_damage_step_number: combat_state.combat_damage_step_number,
                ..cs0
            }),
            spawned@ == all_step_spawns(cs0, creatures@, commanders@, events@.take(i as int)),
            commander_damage_view(combat_state.commander_damage_this_combat@)
                == add_all_recorded(v0, all_step_updates(cs0, creatures@, commanders@, events@.take(i as int))),
            i == 0 ==> combat_state.pending_combat_damage@ == cs0.pending_combat_damage@,
            i > 0 ==> combat_state.pending_combat_damage@
                == step_damage(cs0, creatures@, commanders@, events@[i - 1].is_first_strike),
            combat_state.in_combat_damage == if i == 0 { cs0.in_combat_damage } else { events@[i - 1].is_first_strike },
            combat_state.combat_damage_step_number == if any_first_strike(events@.take(i as int)) {
                2
            } else {
                cs0.combat_damage_step_number
            },
        decreases events@.len() - i,
    {
        let first = events[i].is_first_strike;
        combat_state.in_combat_damage = true;
        let (damage, ups) = compute_step_damage(combat_state, creatures, commanders, first);
        proof {
            assert(events@.take(i + 1).drop_last() =~= events@.take(i as int));
            let prefix = all_step_updates(cs0, creatures@, commanders@, events@.take(i as int));
            let next = all_step_updates(cs0, creatures@, commanders@, events@.take(i + 1));
            assert(next == prefix + ups@);
            lemma_all_step_updates_prefix(cs0, creatures@, commanders@, events@, i + 1);
            lemma_updates_fit_prefix(v0, all_ups, next.len() as int);
            assert(all_ups.take(next.len() as int) == next);
            lemma_updates_fit_split(v0, prefix, ups@);
        }
        let mut j: usize = 0;
        let ghost sp0 = spawned@;
        while j < damage.len()
            invariant
                j <= damage@.len(),
                spawned@ == sp0 + damage@.take(j as int).map_values(|e: CombatDamageEvent| CombatSpawn::Damage(e)),
            decreases damage@.len() - j,
        {
            spawned.push(CombatSpawn::Damage(damage[j]));
            proof {
                assert(damage@.take(j + 1) =~= damage@.take(j as int).push(damage@[j as int]));
                assert(spawned@ =~= sp0 + damage@.take(j + 1).map_values(|e: CombatDamageEvent| CombatSpawn::Damage(e)));
            }
            j = j + 1;
        }
        assert(damage@.take(damage@.len() as int) =~= damage@);
        combat_state.pending_combat_damage = damage;
        apply_commander_updates(&mut combat_state.commander_damage_this_combat, &ups);
        proof {
            lemma_add_all_recorded_append(v0, all_step_updates(cs0, creatures@, commanders@, events@.take(i as int)), ups@);
        }
        if first {
            combat_state.combat_damage_step_number = 2;
            spawned.push(CombatSpawn::NextDamageStep(AssignCombatDamageEvent { is_first_strike: false }));
        } else {
            combat_state.in_combat_damage = false;
            spawned.push(CombatSpawn::DamageComplete(CombatDamageCompleteEvent));
        }
        proof {
            assert(spawned@ =~= all_step_spawns(cs0, creatures@, commanders@, events@.take(i + 1)));
            let t0 = events@.take(i as int);
            let t1 = events@.take(i + 1);
            if any_first_strike(t1) {
                let w = choose|w: int| 0 <= w < t1.len() && #[trigger] t1[w].is_first_strike;
                if w < i {
                    assert(t0[w].is_first_strike);
                }
            }
            if any_first_strike(t0) {
                let w = choose|w: int| 0 <= w < t0.len() && #[trigger] t0[w].is_first_strike;
                assert(t1[w].is_first_strike);
            }
            if first {
                assert(t1[i as int].is_first_strike);
            }
        }
        i = i + 1;
    }
    proof {
        assert(events@.take(events@.len() as int) =~= events@);
        if events@.len() > 0 {
            assert(events@.last() == events@[events@.len() - 1]);
        }
    }
    spawned
}

/// The updates of a prefix of the steps are a prefix of all updates.
proof fn lemma_all_step_updates_prefix(
    cs: CombatState,
    creatures: Map<EntityId, Card>,
    commanders: Seq<EntityId>,
    events: Seq<AssignCombatDamageEvent>,
    k: int,
)
    requires
        0 <= k <= events.len(),
    ensures
        all_step_updates(cs, creatures, commanders, events.take(k)).len()
            <= all_step_updates(cs, creatures, commanders, events).len(),
        all_step_updates(cs, creatures, commanders, events).take(
            all_step_updates(cs, creatures, commanders, events.take(k)).len() as int,
        ) == all_step_updates(cs, creatures, commanders, events.take(k)),
    decreases events.len(),
{
    if k == events.len() {
        assert(events.take(k) =~= events);
        let all = all_step_updates(cs, creatures, commanders, events);
        assert(all.take(all.len() as int) =~= all);
    } else {
        lemma_all_step_updates_prefix(cs, creatures, commanders, events.drop_last(), k);
        assert(events.drop_last().take(k) =~= events.take(k));
        let a = all_step_updates(cs, creatures, commanders, events.drop_last());
        let b = step_updates(cs, creatures, commanders, events.last().is_first_strike);
        let p = all_step_updates(cs, creatures, commanders, events.take(k));
        assert((a + b).take(p.len() as int) =~= a.take(p.len() as int));
    }
}

/// Updates that fit split into a prefix that fits and a rest that fits
/// after it.
proof fn lemma_updates_fit_split(
    m: Map<EntityId, Map<EntityId, u32>>,
    a: Seq<(EntityId, EntityId, u32)>,
    b: Seq<(EntityId, EntityId, u32)>,
)
    requires
        updates_fit(m, a + b),
    ensures
        updates_fit(m, a),
        updates_fit(add_all_recorded(m, a), b),
    decreases b.len(),
{
    if b.len() == 0 {
        assert(a + b =~= a);
    } else {
        assert((a + b).drop_last() =~= a + b.drop_last());
        lemma_updates_fit_split(m, a, b.drop_last());
        lemma_add_all_recorded_append(m, a, b.drop_last());
    }
}

/// Applying `a` then `b` is applying `a + b`.
proof fn lemma_add_all_recorded_append(
    m: Map<EntityId, Map<EntityId, u32>>,
    a: Seq<(EntityId, EntityId, u32)>,
    b: Seq<(EntityId, EntityId, u32)>,
)
    ensures
        add_all_recorded(add_all_recorded(m, a), b) == add_all_recorded(m, a + b),
    decreases b.len(),
{
    if b.len() == 0 {
        assert(a + b =~= a);
    } else {
        assert((a + b).drop_last() =~= a + b.drop_last());
        lemma_add_all_recorded_append(m, a, b.drop_last());
    }
}

/// The damage of the first event in `s` aimed at `p`, if any.
pub open spec fn first_damage_to(s: Seq<CombatDamageEvent>, p: EntityId) -> Option<u32>
    decreases s.len(),
{
    if s.len() == 0 {
        None
    } else {
        match first_damage_to(s.drop_last(), p) {
            Some(d) => Some(d),
            None => if s.last().target == p {
                Some(s.last().damage)
            } else {
                None
            },
        }
    }
}

/// A player after taking `d` damage, if any.
pub open spec fn after_damage(pl: Player, d: Option<u32>) -> Player {
    match d {
        Some(x) => Player { life: (pl.life - (x as i32)) as i32, ..pl },
        None => pl,
    }
}

/// Each player's life total stays in range after the first damage aimed at it.
pub open spec fn damage_fits(players: Map<EntityId, Player>, pending: Seq<CombatDamageEvent>) -> bool {
    forall|p: EntityId| #[trigger] players.dom().contains(p) ==> match first_damage_to(pending, p) {
        Some(d) => i32::MIN <= players[p].life - (d as i32) <= i32::MAX,
        None => true,
    }
}

/// The first damage aimed at `p` in a prefix stays the first in the whole.
proof fn lemma_first_damage_prefix(s: Seq<CombatDamageEvent>, p: EntityId, k: int)
    requires
        0 <= k <= s.len(),
        first_damage_to(s.take(k), p) is Some,
    ensures
        first_damage_to(s, p) == first_damage_to(s.take(k), p),
    decreases s.len(),
{
    if k == s.len() {
        assert(s.take(k) =~= s);
    } else {
        assert(s.drop_last().take(k) =~= s.take(k));
        lemma_first_damage_prefix(s.drop_last(), p, k);
    }
}

/// Deals the pending combat damage to players: each player takes the damage
/// of the first pending event aimed at it (later ones are skipped); events
/// aimed at anything else deal nothing here. The pending damage is then
/// cleared and combat damage is over.
pub fn process_combat_damage_system(combat_state: &mut CombatState, players: &mut EntityMap<Player>)
    requires
        old(players).wf(),
        damage_fits(old(players)@, old(combat_state).pending_combat_damage@),
    ensures
        final(players).wf(),
        final(players).key_seq() == old(players).key_seq(),
        final(players)@ == Map::new(
            |p: EntityId| old(players)@.dom().contains(p),
            |p: EntityId| after_damage(old(players)@[p], first_damage_to(old(combat_state).pending_combat_damage@, p)),
        ),
        final(combat_state).pending_combat_damage@.len() == 0,
        *final(combat_state) == (CombatState {
            pending_combat_damage: final(combat_state).pending_combat_damage,
            in_combat_damage: false,
            ..*old(combat_state)
        }),
{
    let ghost pending = old(combat_state).pending_combat_damage@;
    let ghost p0 = old(players)@;
    let mut processed: Vec<EntityId> = Vec::new();
    let mut i: usize = 0;
    while i < combat_state.pending_combat_damage.len()
        invariant
            pending == combat_state.pending_combat_damage@,
            *combat_state == *old(combat_state),
            damage_fits(p0, pending),
            players.wf(),
            players.key_seq() == old(players).key_seq(),
            players@.dom() == p0.dom(),
            i <= pending.len(),
            forall|p: EntityId| #[trigger] p0.dom().contains(p)
                ==> players@[p] == after_damage(p0[p], first_damage_to(pending.take(i as int), p)),
            forall|p: EntityId| #[trigger] processed@.contains(p)
                <==> (p0.dom().contains(p) && first_damage_to(pending.take(i as int), p) is Some),
        decreases pending.len() - i,
    {
        let e = combat_state.pending_combat_damage[i];
        let ghost t0 = pending.take(i as int);
        let ghost t1 = pending.take(i + 1);
        proof {
            assert(t1.drop_last() =~= t0);
        }
        let ghost pr0 = processed@;
        let ghost mut pushed = false;
        let target_player: Option<Player> = match players.get(e.target) {
            Some(pl) => Some(*pl),
            None => None,
        };
        match target_player {
            Some(pl) => {
                if !vec_contains(&processed, e.target) {
                    proof {
                        assert(first_damage_to(t1, e.target) == Some(e.damage));
                        lemma_first_damage_prefix(pending, e.target, i + 1);
                        assert(p0.dom().contains(e.target));
                        assert(players@[e.target] == p0[e.target]);
                    }
                    let life: i32 = pl.life - e.damage as i32;
                    players.insert(e.target, Player { life, ..pl });
                    processed.push(e.target);
                    proof {
                        pushed = true;
                    }
                }
            },
            None => {},
        }
        proof {
            assert forall|p: EntityId| #[trigger] p0.dom().contains(p)
                implies players@[p] == after_damage(p0[p], first_damage_to(t1, p)) by {
            }
            assert forall|p: EntityId| #[trigger] processed@.contains(p)
                <==> (p0.dom().contains(p) && first_damage_to(t1, p) is Some) by {
                if pushed {
                    assert(processed@ == pr0.push(e.target));
                    if processed@.contains(p) && p != e.target {
                        let w = choose|w: int| 0 <= w < processed@.len() && processed@[w] == p;
                        assert(pr0[w] == p);
                    }
                    if pr0.contains(p) {
                        let w = choose|w: int| 0 <= w < pr0.len() && pr0[w] == p;
                        assert(processed@[w] == p);
                    }
                    if p == e.target {
                        assert(processed@[pr0.len() as int] == p);
                    }
                } else {
                    assert(processed@ == pr0);
                }
                assert(pr0.contains(p) <==> (p0.dom().contains(p) && first_damage_to(t0, p) is Some));
            }
            assert(players@.dom() =~= p0.dom());
        }
        i = i + 1;
    }
    proof {
        assert(pending.take(pending.len() as int) =~= pending);
        assert(players@ =~= Map::new(
            |p: EntityId| p0.dom().contains(p),
            |p: EntityId| after_damage(p0[p], first_damage_to(pending, p)),
        ));
    }
    combat_state.pending_combat_damage.clear();
    combat_state.in_combat_damage = false;
}

/// Clears the combat's attackers, blockers, damage and flags (the other
/// records stay) and announces the end of combat for the active player.
pub fn end_combat_system(combat_state: &mut CombatState, active_player: EntityId) -> (e: CombatEndEvent)
    requires
        old(combat_state).wf(),
    ensures
        final(combat_state).wf(),
        e.player == active_player,
        final(combat_state).attackers@ == Map::<EntityId, EntityId>::empty(),
        final(combat_state).blockers@ == Map::<EntityId, Vec<EntityId>>::empty(),
        final(combat_state).blocked_status@ == Map::<EntityId, BlockedStatus>::empty(),
        final(combat_state).assigned_combat_damage@ == Map::<EntityId, Vec<(EntityId, u32)>>::empty(),
        final(combat_state).pending_combat_damage@.len() == 0,
        final(combat_state).commander_damage_this_combat@ == Map::<EntityId, EntityMap<u32>>::empty(),
        *final(combat_state) == (CombatState {
            attackers: final(combat_state).attackers,
            blockers: final(combat_state).blockers,
            blocked_status: final(combat_state).blocked_status,
            assigned_combat_damage: final(combat_state).assigned_combat_damage,
            pending_combat_damage: final(combat_state).pending_combat_damage,
            commander_damage_this_combat: final(combat_state).commander_damage_this_combat,
            in_declare_attackers: false,
            in_declare_blockers: false,
            in_combat_damage: false,
            combat_damage_step_number: 0,
            ..*old(combat_state)
        }),
{
    combat_state.attackers.clear();
    combat_state.blockers.clear();
    combat_state.blocked_status.clear();
    combat_state.assigned_combat_damage.clear();
    combat_state.pending_combat_damage.clear();
    combat_state.commander_damage_this_combat.clear();
    combat_state.in_declare_attackers = false;
    combat_state.in_declare_blockers = false;
    combat_state.in_combat_damage = false;
    combat_state.combat_damage_step_number = 0;
    CombatEndEvent { player: active_player }
}

} // verus!
