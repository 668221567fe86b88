//! Helpers that set up and resolve combat directly, for driving combat in a
//! deterministic way.

use vstd::prelude::*;
use crate::combat::{
    AttackerDeclaredEvent, BlockedStatus, BlockerDeclaredEvent, CombatState, attackers_after, blocked_after,
    blockers_after, lists_of, nested_wf,
};
use crate::commander::{CombatDamageEvent, Commander, add_damage_entry, add_entry, entry_index};
use crate::entity::{EntityId, EntityMap, lemma_push_to_lists, list_or_empty, vec_lists};
use crate::game::{GameState, Player};

verus! {

/// The attacker declarations that (attacker, defender) pairs stand for.
pub open spec fn attack_pairs(s: Seq<(EntityId, EntityId)>) -> Seq<AttackerDeclaredEvent> {
    Seq::new(s.len(), |i: int| AttackerDeclaredEvent { attacker: s[i].0, defender: s[i].1 })
}

/// The block declarations that (blocker, attacker) pairs stand for.
pub open spec fn block_pairs(s: Seq<(EntityId, EntityId)>) -> Seq<BlockerDeclaredEvent> {
    Seq::new(s.len(), |i: int| BlockerDeclaredEvent { blocker: s[i].0, attacker: s[i].1 })
}

/// Records that `blocker` blocks `attacker`: the attacker is blocked and the
/// blocker joins its blockers.
fn record_block(combat_state: &mut CombatState, attacker: EntityId, blocker: EntityId)
    requires
        old(combat_state).wf(),
    ensures
        final(combat_state).wf(),
        lists_of(final(combat_state).blockers@) == lists_of(old(combat_state).blockers@).insert(
            attacker,
            list_or_empty(lists_of(old(combat_state).blockers@), attacker).push(blocker),
        ),
        final(combat_state).blocked_status@ == old(combat_state).blocked_status@.insert(attacker, BlockedStatus::Blocked),
        *final(combat_state) == (CombatState {
            blockers: final(combat_state).blockers,
            blocked_status: final(combat_state).blocked_status,
            ..*old(combat_state)
        }),
{
    let ghost b0 = combat_state.blockers@;
    combat_state.blocked_status.insert(attacker, BlockedStatus::Blocked);
    combat_state.blockers.push_to(attacker, blocker);
    proof {
        lemma_push_to_lists(b0, combat_state.blockers@, attacker, blocker);
        assert(lists_of(b0) =~= vec_lists(b0));
        assert(lists_of(combat_state.blockers@) =~= vec_lists(combat_state.blockers@));
    }
}

/// Sets up a combat: each (attacker, defender) pair attacks, each (blocker,
/// attacker) pair blocks (the attacker becomes blocked), each commander gets
/// an empty commander damage record, and combat is in the declare steps.
pub fn setup_test_combat(
    combat_state: &mut CombatState,
    attackers: &Vec<(EntityId, EntityId)>,
    blockers: &Vec<(EntityId, EntityId)>,
    commander_entities: &Vec<EntityId>,
)
    requires
        old(combat_state).wf(),
    ensures
        final(combat_state).wf(),
        final(combat_state).attackers@ == attackers_after(old(combat_state).attackers@, attack_pairs(attackers@)),
        lists_of(final(combat_state).blockers@) == blockers_after(lists_of(old(combat_state).blockers@), block_pairs(blockers@)),
        final(combat_state).blocked_status@ == blocked_after(old(combat_state).blocked_status@, block_pairs(blockers@)),
        final(combat_state).commander_damage_this_combat@.dom()
            == old(combat_state).commander_damage_this_combat@.dom() + commander_entities@.to_set(),
        forall|c: EntityId| #[trigger] commander_entities@.contains(c)
            ==> final(combat_state).commander_damage_this_combat@[c]@ == Map::<EntityId, u32>::empty(),
        forall|c: EntityId| #[trigger] old(combat_state).commander_damage_this_combat@.dom().contains(c) && !commander_entities@.contains(c)
            ==> final(combat_state).commander_damage_this_combat@[c] == old(combat_state).commander_damage_this_combat@[c],
        final(combat_state).in_declare_attackers,
        final(combat_state).in_declare_blockers,
        *final(combat_state) == (CombatState {
            attackers: final(combat_state).attackers,
            blockers: final(combat_state).blockers,
            blocked_status: final(combat_state).blocked_status,
            commander_damage_this_combat: final(combat_state).commander_damage_this_combat,
            in_declare_attackers: true,
            in_declare_blockers: true,
            ..*old(combat_state)
        }),
{
    let ghost a_ev = attack_pairs(attackers@);
    let mut i: usize = 0;
    while i < attackers.len()
        invariant
            combat_state.wf(),
            a_ev == attack_pairs(attackers@),
            i <= attackers@.len(),
            combat_state.attackers@ == attackers_after(old(combat_state).attackers@, a_ev.take(i as int)),
            *combat_state == (CombatState { attackers: combat_state.attackers, ..*old(combat_state) }),
        decreases attackers@.len() - i,
    {
        let (a, d) = attackers[i];
        proof {
            assert(a_ev.take(i + 1).drop_last() =~= a_ev.take(i as int));
            assert(a_ev.take(i + 1).last() == AttackerDeclaredEvent { attacker: a, defender: d });
        }
        combat_state.attackers.insert(a, d);
        i = i + 1;
    }
    assert(a_ev.take(a_ev.len() as int) =~= a_ev);
    let ghost s1 = *combat_state;
    let ghost b_ev = block_pairs(blockers@);
    let mut j: usize = 0;
    while j < blockers.len()
        invariant
            combat_state.wf(),
            b_ev == block_pairs(blockers@),
            j <= blockers@.len(),
            lists_of(combat_state.blockers@) == blockers_after(lists_of(s1.blockers@), b_ev.take(j as int)),
            combat_state.blocked_status@ == blocked_after(s1.blocked_status@, b_ev.take(j as int)),
            *combat_state == (CombatState {
                blockers: combat_state.blockers,
                blocked_status: combat_state.blocked_status,
                ..s1
            }),
        decreases blockers@.len() - j,
    {
        let (b, a) = blockers[j];
        let ghost prev = lists_of(combat_state.blockers@);
        proof {
            assert(b_ev.take(j + 1).drop_last() =~= b_ev.take(j as int));
            assert(b_ev.take(j + 1).last() == BlockerDeclaredEvent { blocker: b, attacker: a });
        }
        record_block(combat_state, a, b);
        j = j + 1;
    }
    assert(b_ev.take(b_ev.len() as int) =~= b_ev);
    let ghost s2 = *combat_state;
    let mut k: usize = 0;
    while k < commander_entities.len()
        invariant
            combat_state.wf(),
            k <= commander_entities@.len(),
            combat_state.commander_damage_this_combat@.dom()
                == s2.commander_damage_this_combat@.dom() + commander_entities@.take(k as int).to_set(),
            forall|c: EntityId| #[trigger] commander_entities@.take(k as int).contains(c)
                ==> combat_state.commander_damage_this_combat@[c]@ == Map::<EntityId, u32>::empty(),
            forall|c: EntityId| #[trigger] s2.commander_damage_this_combat@.dom().contains(c)
                && !commander_entities@.take(k as int).contains(c)
                ==> combat_state.commander_damage_this_combat@[c] == s2.commander_damage_this_combat@[c],
            *combat_state == (CombatState { commander_damage_this_combat: combat_state.commander_damage_this_combat, ..s2 }),
        decreases commander_entities@.len() - k,
    {
        let c = commander_entities[k];
        let ghost t0 = commander_entities@.take(k as int);
        let ghost t1 = commander_entities@.take(k + 1);
        proof {
            assert(t1 =~= t0.push(c));
            assert forall|x: EntityId| #[trigger] t1.contains(x) == (t0.contains(x) || x == c) by {
                if t0.contains(x) {
                    let w = choose|w: int| 0 <= w < t0.len() && t0[w] == x;
                    assert(t1[w] == x);
                }
                if x == c {
                    assert(t1[k as int] == x);
                }
                if t1.contains(x) && x != c {
                    let w = choose|w: int| 0 <= w < t1.len() && t1[w] == x;
                    assert(t0[w] == x);
                }
            }
        }
        combat_state.commander_damage_this_combat.insert(c, EntityMap::new());
        proof {
            assert(combat_state.commander_damage_this_combat@.dom() =~= s2.commander_damage_this_combat@.dom() + t1.to_set());
        }
        k = k + 1;
    }
    assert(commander_entities@.take(commander_entities@.len() as int) =~= commander_entities@);
    combat_state.in_declare_attackers = true;
    combat_state.in_declare_blockers = true;
}

/// Declares one attacker against `target` and enters the declare attackers step.
pub fn add_attacker_with_target(combat_state: &mut CombatState, attacker: EntityId, target: EntityId)
    requires
        old(combat_state).wf(),
    ensures
        final(combat_state).wf(),
        final(combat_state).attackers@ == old(combat_state).attackers@.insert(attacker, target),
        *final(combat_state) == (CombatState {
            attackers: final(combat_state).attackers,
            in_declare_attackers: true,
            ..*old(combat_state)
        }),
{
    combat_state.attackers.insert(attacker, target);
    combat_state.in_declare_attackers = true;
}

/// Makes `blocker` block `attacker`, which must be attacking, and enters
/// the declare blockers step.
pub fn assign_blocker(combat_state: &mut CombatState, attacker: EntityId, blocker: EntityId)
    requires
        old(combat_state).wf(),
        old(combat_state).attackers@.dom().contains(attacker),
    ensures
        final(combat_state).wf(),
        final(combat_state).blocked_status@ == old(combat_state).blocked_status@.insert(attacker, BlockedStatus::Blocked),
        lists_of(final(combat_state).blockers@) == lists_of(old(combat_state).blockers@).insert(
            attacker,
            list_or_empty(lists_of(old(combat_state).blockers@), attacker).push(blocker),
        ),
        *final(combat_state) == (CombatState {
            blockers: final(combat_state).blockers,
            blocked_status: final(combat_state).blocked_status,
            in_declare_blockers: true,
            ..*old(combat_state)
        }),
{
    record_block(combat_state, attacker, blocker);
    combat_state.in_declare_blockers = true;
}

/// Every player's life after losing `amount` stays in range.
pub open spec fn loss_fits(players: Map<EntityId, Player>, amount: i32) -> bool {
    forall|p: EntityId| #[trigger] players.dom().contains(p) ==> players[p].life - amount >= i32::MIN
}

/// Deals `amount` damage to every player, when it is positive.
pub fn deal_damage_to_players(players: &mut EntityMap<Player>, amount: i32)
    requires
        old(players).wf(),
        amount > 0 ==> loss_fits(old(players)@, amount),
    ensures
        final(players).wf(),
        final(players).key_seq() == old(players).key_seq(),
        amount <= 0 ==> final(players)@ == old(players)@,
        amount > 0 ==> final(players)@ == Map::new(
            |p: EntityId| old(players)@.dom().contains(p),
            |p: EntityId| Player { life: (old(players)@[p].life - amount) as i32, ..old(players)@[p] },
        ),
{
    if amount <= 0 {
        return;
    }
    let ghost e0 = players.entries@;
    let mut i: usize = 0;
    while i < players.entries.len()
        invariant
            players.wf(),
            old(players).wf(),
            e0 == old(players).entries@,
            loss_fits(old(players)@, amount),
            amount > 0,
            players.key_seq() == old(players).key_seq(),
            players.entries@.len() == e0.len(),
            i <= e0.len(),
            forall|j: int| 0 <= j < e0.len() ==> #[trigger] players.entries@[j].0 == e0[j].0,
            forall|j: int| 0 <= j < i ==> #[trigger] players.entries@[j].1 == (Player { life: (e0[j].1.life - amount) as i32, ..e0[j].1 }),
            forall|j: int| i <= j < e0.len() ==> #[trigger] players.entries@[j] == e0[j],
        decreases e0.len() - i,
    {
        let p = players.entries[i].1;
        proof {
            crate::entity::lemma_key_index_unique(e0, i as int);
            assert(old(players)@.dom().contains(e0[i as int].0));
        }
        let _ = players.replace_at(i, Player { life: p.life - amount, ..p });
        i = i + 1;
    }
    proof {
        let target = Map::new(
            |p: EntityId| old(players)@.dom().contains(p),
            |p: EntityId| Player { life: (old(players)@[p].life - amount) as i32, ..old(players)@[p] },
        );
        assert forall|k: EntityId| #[trigger] players@.dom().contains(k) == target.dom().contains(k) by {
            crate::entity::lemma_key_seq_contains(*players, k);
            crate::entity::lemma_key_seq_contains(*old(players), k);
        }
        assert forall|k: EntityId| players@.dom().contains(k) implies #[trigger] players@[k] == target[k] by {
            let j = crate::entity::seq_key_index(players.entries@, k);
            crate::entity::lemma_key_index_unique(players.entries@, j);
            crate::entity::lemma_key_index_unique(e0, j);
        }
        assert(players@ =~= target);
    }
}

/// A player's life after the damage `events` aimed at it, one event at a time.
pub open spec fn life_after(life: int, p: EntityId, events: Seq<CombatDamageEvent>) -> int
    decreases events.len(),
{
    if events.len() == 0 {
        life
    } else {
        let prev = life_after(life, p, events.drop_last());
        if events.last().target == p {
            prev - (events.last().damage as i32)
        } else {
            prev
        }
    }
}

/// No step of the player's life total leaves the 32-bit range.
pub open spec fn life_fits(life: int, p: EntityId, events: Seq<CombatDamageEvent>) -> bool
    decreases events.len(),
{
    if events.len() == 0 {
        i32::MIN <= life <= i32::MAX
    } else {
        &&& life_fits(life, p, events.drop_last())
        &&& i32::MIN <= life_after(life, p, events) <= i32::MAX
    }
}

/// The commander damage record of `k` after the events that hit players.
pub open spec fn commander_record(
    damage: Seq<(EntityId, u32)>,
    k: EntityId,
    events: Seq<CombatDamageEvent>,
    players: Set<EntityId>,
) -> Seq<(EntityId, u32)>
    decreases events.len(),
{
    if events.len() == 0 {
        damage
    } else {
        let prev = commander_record(damage, k, events.drop_last(), players);
        let e = events.last();
        if players.contains(e.target) && e.source_is_commander && e.source == k {
            add_entry(prev, e.target, e.damage)
        } else {
            prev
        }
    }
}

/// No commander damage total overflows while the events are recorded.
pub open spec fn commander_record_fits(
    damage: Seq<(EntityId, u32)>,
    k: EntityId,
    events: Seq<CombatDamageEvent>,
    players: Set<EntityId>,
) -> bool
    decreases events.len(),
{
    if events.len() == 0 {
        true
    } else {
        let prev = commander_record(damage, k, events.drop_last(), players);
        let e = events.last();
        &&& commander_record_fits(damage, k, events.drop_last(), players)
        &&& (players.contains(e.target) && e.source_is_commander && e.source == k) ==> match entry_index(prev, e.target) {
            Some(i) => prev[i].1 + e.damage <= u32::MAX,
            None => true,
        }
    }
}

/// A prefix of fitting life changes fits.
proof fn lemma_life_fits_prefix(life: int, p: EntityId, events: Seq<CombatDamageEvent>, k: int)
    requires
        life_fits(life, p, events),
        0 <= k <= events.len(),
    ensures
        life_fits(life, p, events.take(k)),
    decreases events.len(),
{
    if k == events.len() {
        assert(events.take(k) =~= events);
    } else {
        assert(events.drop_last().take(k) =~= events.take(k));
        lemma_life_fits_prefix(life, p, events.drop_last(), k);
    }
}

/// A prefix of fitting commander records fits.
proof fn lemma_record_fits_prefix(damage: Seq<(EntityId, u32)>, k: EntityId, events: Seq<CombatDamageEvent>, players: Set<EntityId>, n: int)
    requires
        commander_record_fits(damage, k, events, players),
        0 <= n <= events.len(),
    ensures
        commander_record_fits(damage, k, events.take(n), players),
    decreases events.len(),
{
    if n == events.len() {
        assert(events.take(n) =~= events);
    } else {
        assert(events.drop_last().take(n) =~= events.take(n));
        lemma_record_fits_prefix(damage, k, events.drop_last(), players, n);
    }
}

/// Applies combat damage directly: the pending damage and `damage_events`,
/// in that order, are dealt; each event aimed at a player takes its damage
/// from that player's life, marks that state-based actions were performed,
/// and, from a commander, adds to that commander's damage record against
/// the player. The pending damage is then empty.
pub fn apply_combat_damage(
    combat_state: &mut CombatState,
    players: &mut EntityMap<Player>,
    game_state: &mut GameState,
    commanders: &mut EntityMap<Commander>,
    damage_events: &Vec<CombatDamageEvent>,
)
    requires
        old(players).wf(),
        old(commanders).wf(),
        forall|p: EntityId| #[trigger] old(players)@.dom().contains(p) ==> life_fits(
            old(players)@[p].life as int,
            p,
            old(combat_state).pending_combat_damage@ + damage_events@,
        ),
        forall|k: EntityId| #[trigger] old(commanders)@.dom().contains(k) ==> commander_record_fits(
            old(commanders)@[k].damage_dealt@,
            k,
            old(combat_state).pending_combat_damage@ + damage_events@,
            old(players)@.dom(),
        ),
    ensures
        final(players).wf(),
        final(commanders).wf(),
        ({
            let all = old(combat_state).pending_combat_damage@ + damage_events@;
            &&& final(players)@ == Map::new(
                |p: EntityId| old(players)@.dom().contains(p),
                |p: EntityId| Player { life: life_after(old(players)@[p].life as int, p, all) as i32, ..old(players)@[p] },
            )
            &&& final(commanders)@.dom() == old(commanders)@.dom()
            &&& forall|k: EntityId| #[trigger] old(commanders)@.dom().contains(k) ==> {
                &&& final(commanders)@[k].damage_dealt@ == commander_record(old(commanders)@[k].damage_dealt@, k, all, old(players)@.dom())
                &&& final(commanders)@[k].owner == old(commanders)@[k].owner
                &&& final(commanders)@[k].cast_count == old(commanders)@[k].cast_count
                &&& final(commanders)@[k].color_identity == old(commanders)@[k].color_identity
                &&& final(commanders)@[k].dealt_combat_damage_this_turn == old(commanders)@[k].dealt_combat_damage_this_turn
            }
            &&& final(game_state).state_based_actions_performed == (old(game_state).state_based_actions_performed
                || exists|i: int| 0 <= i < all.len() && old(players)@.dom().contains(#[trigger] all[i].target))
        }),
        final(combat_state).pending_combat_damage@.len() == 0,
        *final(combat_state) == (CombatState {
            pending_combat_damage: final(combat_state).pending_combat_damage,
            ..*old(combat_state)
        }),
        final(game_state).lands_played == old(game_state).lands_played,
        final(game_state).active_player == old(game_state).active_player,
        final(game_state).turn_number == old(game_state).turn_number,
{
    let mut all: Vec<CombatDamageEvent> = Vec::new();
    let mut i: usize = 0;
    while i < combat_state.pending_combat_damage.len()
        invariant
            i <= combat_state.pending_combat_damage@.len(),
            all@ == combat_state.pending_combat_damage@.take(i as int),
        decreases combat_state.pending_combat_damage@.len() - i,
    {
        all.push(combat_state.pending_combat_damage[i]);
        i = i + 1;
        assert(all@ =~= combat_state.pending_combat_damage@.take(i as int));
    }
    assert(combat_state.pending_combat_damage@.take(i as int) =~= combat_state.pending_combat_damage@);
    let mut j: usize = 0;
    while j < damage_events.len()
        invariant
            j <= damage_events@.len(),
            all@ == old(combat_state).pending_combat_damage@ + damage_events@.take(j as int),
        decreases damage_events@.len() - j,
    {
        all.push(damage_events[j]);
        j = j + 1;
        assert(all@ =~= old(combat_state).pending_combat_damage@ + damage_events@.take(j as int));
    }
    assert(damage_events@.take(j as int) =~= damage_events@);
    combat_state.pending_combat_damage.clear();
    let ghost ev = all@;
    let ghost p0 = old(players)@;
    let ghost c0 = old(commanders)@;
    let ghost sba0 = old(game_state).state_based_actions_performed;
    let mut k: usize = 0;
    while k < all.len()
        invariant
            ev == all@,
            players.wf(),
            commanders.wf(),
            k <= ev.len(),
            forall|p: EntityId| #[trigger] p0.dom().contains(p) ==> life_fits(p0[p].life as int, p, ev),
            forall|c: EntityId| #[trigger] c0.dom().contains(c) ==> commander_record_fits(c0[c].damage_dealt@, c, ev, p0.dom()),
            players@ == Map::new(
                |p: EntityId| p0.dom().contains(p),
                |p: EntityId| Player { life: life_after(p0[p].life as int, p, ev.take(k as int)) as i32, ..p0[p] },
            ),
            commanders@.dom() == c0.dom(),
            forall|c: EntityId| #[trigger] c0.dom().contains(c) ==> {
                &&& commanders@[c].damage_dealt@ == commander_record(c0[c].damage_dealt@, c, ev.take(k as int), p0.dom())
                &&& commanders@[c].owner == c0[c].owner
                &&& commanders@[c].cast_count == c0[c].cast_count
                &&& commanders@[c].color_identity == c0[c].color_identity
                &&& commanders@[c].dealt_combat_damage_this_turn == c0[c].dealt_combat_damage_this_turn
            },
            game_state.state_based_actions_performed == (sba0
                || exists|t: int| 0 <= t < k && p0.dom().contains(#[trigger] ev[t].target)),
            game_state.lands_played == old(game_state).lands_played,
            game_state.active_player == old(game_state).active_player,
            game_state.turn_number == old(game_state).turn_number,
        decreases ev.len() - k,
    {
        let e = all[k];
        let ghost t0 = ev.take(k as int);
        let ghost t1 = ev.take(k + 1);
        proof {
            assert(t1.drop_last() =~= t0);
        }
        let ghost sba_before = game_state.state_based_actions_performed;
        match players.get(e.target) {
            Some(pl) => {
                let pl = *pl;
                proof {
                    let l0 = p0[e.target].life as int;
                    lemma_life_fits_prefix(l0, e.target, ev, k + 1);
                    assert(life_fits(l0, e.target, t1));
                    assert(life_fits(l0, e.target, t0));
                    if t0.len() == 0 {
                        assert(life_after(l0, e.target, t0) == l0);
                    }
                    assert(i32::MIN <= life_after(l0, e.target, t0) <= i32::MAX);
                    assert(pl.life == life_after(l0, e.target, t0));
                    assert(t1.last() == e);
                    assert(life_after(l0, e.target, t1) == life_after(l0, e.target, t0) - (e.damage as i32));
                    assert(i32::MIN <= life_after(l0, e.target, t1) <= i32::MAX);
                }
                players.insert(e.target, Player { life: pl.life - e.damage as i32, ..pl });
                game_state.state_based_actions_performed = true;
                if e.source_is_commander {
                    match commanders.find(e.source) {
                        Some(ci) => {
                            proof {
                                crate::entity::lemma_key_index_unique(commanders.entries@, ci as int);
                                lemma_record_fits_prefix(c0[e.source].damage_dealt@, e.source, ev, p0.dom(), k + 1);
                            }
                            let blank = Commander {
                                owner: e.source,
                                cast_count: 0,
                                damage_dealt: Vec::new(),
                                color_identity: crate::cards::ColorSet::empty(),
                                is_partner: false,
                                is_background: false,
                                dealt_combat_damage_this_turn: Vec::new(),
                            };
                            let mut cmd = commanders.replace_at(ci, blank);
                            add_damage_entry(&mut cmd.damage_dealt, e.target, e.damage);
                            let _ = commanders.replace_at(ci, cmd);
                        },
                        None => {},
                    }
                }
            },
            None => {},
        }
        proof {
            assert(players@ =~= Map::new(
                |p: EntityId| p0.dom().contains(p),
                |p: EntityId| Player { life: life_after(p0[p].life as int, p, t1) as i32, ..p0[p] },
            ));
            assert forall|c: EntityId| #[trigger] c0.dom().contains(c) implies
                commanders@[c].damage_dealt@ == commander_record(c0[c].damage_dealt@, c, t1, p0.dom()) by {
            }
            if game_state.state_based_actions_performed != sba_before {
                assert(p0.dom().contains(ev[k as int].target));
            }
            if sba_before {
                if !sba0 {
                    let t = choose|t: int| 0 <= t < k && p0.dom().contains(#[trigger] ev[t].target);
                    assert(0 <= t < k + 1 && p0.dom().contains(ev[t].target));
                }
            }
            if exists|t: int| 0 <= t < k + 1 && p0.dom().contains(#[trigger] ev[t].target) {
                let t = choose|t: int| 0 <= t < k + 1 && p0.dom().contains(#[trigger] ev[t].target);
                if t == k {
                    assert(players@.dom().contains(e.target) || !p0.dom().contains(e.target));
                }
            }
        }
        k = k + 1;
    }
    assert(ev.take(ev.len() as int) =~= ev);
}

} // verus!
