use rummage::cards::{Card, CardDetails, CardTypes, CreatureCard, CreatureType, Mana};
use rummage::combat::{
    assign_combat_damage_system, check_for_first_strike_creatures, declare_attackers_system, declare_blockers_system,
    end_combat_system, initialize_combat_phase, process_combat_damage_system, validate_block, AssignCombatDamageEvent,
    AttackerDeclaredEvent, BlockRestriction, BlockedStatus, BlockerDeclaredEvent, CombatSpawn, CombatState, Comparison,
    DeclareAttackersEvent, DeclareBlockersEvent, handle_declare_attackers_event, handle_declare_blockers_event,
};
use rummage::phase::{CombatStep, Phase, PrecombatStep};
use rummage::combat_test_utils::{add_attacker_with_target, apply_combat_damage, assign_blocker, deal_damage_to_players, setup_test_combat};
use rummage::commander::{CombatDamageEvent, Commander};
use rummage::entity::{EntityId, EntityMap};
use rummage::game::{GameState, Player};

fn record_attacks(cs: &mut CombatState, events: &Vec<AttackerDeclaredEvent>) {
    declare_attackers_system(
        cs,
        &vec![DeclareAttackersEvent { attacking_player: EntityId(1) }],
        events,
        Phase::Precombat(PrecombatStep::Main),
        EntityId(1),
    );
}

fn creature(power: i32, toughness: i32, text: &str) -> Card {
    Card::new(
        "c".to_string(),
        Mana::zero(),
        CardTypes::creature(),
        CardDetails::Creature(CreatureCard { power, toughness, creature_type: CreatureType { bits: 0 } }),
        text.to_string(),
    )
}

fn damage_of(spawned: &[CombatSpawn]) -> Vec<(u64, u64, u32)> {
    spawned
        .iter()
        .filter_map(|s| match s {
            CombatSpawn::Damage(e) => Some((e.source.0, e.target.0, e.damage)),
            _ => None,
        })
        .collect()
}

fn players(ids: &[u64], life: i32) -> EntityMap<Player> {
    let mut m = EntityMap::new();
    for &id in ids {
        m.insert(EntityId(id), Player { life, cards_to_draw: 0 });
    }
    m
}

#[test]
fn blocked_attacker_splits_damage_among_blockers() {
    let mut cs = CombatState::default();
    let mut creatures = EntityMap::new();
    creatures.insert(EntityId(10), creature(5, 5, ""));
    add_attacker_with_target(&mut cs, EntityId(10), EntityId(1));
    assign_blocker(&mut cs, EntityId(10), EntityId(20));
    assign_blocker(&mut cs, EntityId(10), EntityId(21));
    let spawned = assign_combat_damage_system(&mut cs, &vec![AssignCombatDamageEvent { is_first_strike: false }], &creatures, &vec![]);
    assert_eq!(damage_of(&spawned), vec![(10, 20, 3), (10, 21, 2)]);
    assert!(matches!(spawned.last(), Some(CombatSpawn::DamageComplete(_))));
    assert!(!cs.in_combat_damage);
    let total: u32 = damage_of(&spawned).iter().map(|d| d.2).sum();
    assert_eq!(total, 5);
}

#[test]
fn even_split_among_three_blockers() {
    let mut cs = CombatState::default();
    let mut creatures = EntityMap::new();
    creatures.insert(EntityId(10), creature(7, 1, ""));
    add_attacker_with_target(&mut cs, EntityId(10), EntityId(1));
    for b in [20u64, 21, 22] {
        assign_blocker(&mut cs, EntityId(10), EntityId(b));
    }
    let spawned = assign_combat_damage_system(&mut cs, &vec![AssignCombatDamageEvent { is_first_strike: false }], &creatures, &vec![]);
    assert_eq!(damage_of(&spawned), vec![(10, 20, 3), (10, 21, 2), (10, 22, 2)]);
}

#[test]
fn unblocked_commander_hits_player_and_records_commander_damage() {
    let mut cs = CombatState::default();
    let mut creatures = EntityMap::new();
    creatures.insert(EntityId(10), creature(4, 4, ""));
    record_attacks(&mut cs, &vec![AttackerDeclaredEvent { attacker: EntityId(10), defender: EntityId(1) }]);
    let spawned = assign_combat_damage_system(
        &mut cs,
        &vec![AssignCombatDamageEvent { is_first_strike: false }],
        &creatures,
        &vec![EntityId(10)],
    );
    assert_eq!(damage_of(&spawned), vec![(10, 1, 4)]);
    match &spawned[0] {
        CombatSpawn::Damage(e) => assert!(e.source_is_commander && e.is_combat_damage),
        _ => panic!("expected damage"),
    }
    let record = cs.commander_damage_this_combat.get(EntityId(1)).expect("player record");
    assert_eq!(*record.get(EntityId(10)).unwrap(), 4);
    assert_eq!(cs.pending_combat_damage.len(), 1);
}

#[test]
fn first_strike_step_only_first_strikers_deal_damage() {
    let mut cs = CombatState::default();
    let mut creatures = EntityMap::new();
    creatures.insert(EntityId(10), creature(3, 3, "first strike"));
    creatures.insert(EntityId(11), creature(2, 2, ""));
    creatures.insert(EntityId(12), creature(1, 1, "double strike"));
    let attackers = vec![
        AttackerDeclaredEvent { attacker: EntityId(10), defender: EntityId(1) },
        AttackerDeclaredEvent { attacker: EntityId(11), defender: EntityId(1) },
        AttackerDeclaredEvent { attacker: EntityId(12), defender: EntityId(1) },
    ];
    record_attacks(&mut cs, &attackers);
    assert!(check_for_first_strike_creatures(&cs, &creatures));
    let first = assign_combat_damage_system(&mut cs, &vec![AssignCombatDamageEvent { is_first_strike: true }], &creatures, &vec![]);
    assert_eq!(damage_of(&first), vec![(10, 1, 3), (12, 1, 1)]);
    assert!(matches!(first.last(), Some(CombatSpawn::NextDamageStep(AssignCombatDamageEvent { is_first_strike: false }))));
    assert_eq!(cs.combat_damage_step_number, 2);
    assert!(cs.in_combat_damage);
    let regular = assign_combat_damage_system(&mut cs, &vec![AssignCombatDamageEvent { is_first_strike: false }], &creatures, &vec![]);
    assert_eq!(damage_of(&regular), vec![(11, 1, 2), (12, 1, 1)]);
}

#[test]
fn zero_power_attacker_deals_nothing() {
    let mut cs = CombatState::default();
    let mut creatures = EntityMap::new();
    creatures.insert(EntityId(10), creature(0, 3, ""));
    add_attacker_with_target(&mut cs, EntityId(10), EntityId(1));
    cs.blocked_status.insert(EntityId(10), BlockedStatus::Unblocked);
    let spawned = assign_combat_damage_system(&mut cs, &vec![AssignCombatDamageEvent { is_first_strike: false }], &creatures, &vec![]);
    assert!(damage_of(&spawned).is_empty());
    assert_eq!(spawned.len(), 1);
}

#[test]
fn blocks_are_recorded_only_when_legal() {
    let mut cs = CombatState::default();
    let mut creatures = EntityMap::new();
    creatures.insert(EntityId(20), creature(2, 2, ""));
    creatures.insert(EntityId(21), creature(6, 6, ""));
    record_attacks(&mut cs, &vec![AttackerDeclaredEvent { attacker: EntityId(10), defender: EntityId(1) }]);
    cs.cannot_be_blocked_by.insert(EntityId(10), vec![BlockRestriction::Power(Comparison::GreaterThan, 4)]);
    let out = declare_blockers_system(
        &mut cs,
        &vec![DeclareBlockersEvent { defending_players: vec![EntityId(1)] }],
        &vec![
            BlockerDeclaredEvent { blocker: EntityId(20), attacker: EntityId(10) },
            BlockerDeclaredEvent { blocker: EntityId(21), attacker: EntityId(10) },
            BlockerDeclaredEvent { blocker: EntityId(77), attacker: EntityId(10) },
            BlockerDeclaredEvent { blocker: EntityId(20), attacker: EntityId(99) },
        ],
        &creatures,
        Phase::Combat(CombatStep::DeclareAttackers),
        EntityId(1),
    );
    assert_eq!(out.step_begins.len(), 1);
    assert_eq!(out.step_begins[0].player, EntityId(1));
    assert_eq!(out.blocks.len(), 1);
    assert_eq!(out.blocked.len(), 1);
    assert_eq!(out.blocks[0].blocker, EntityId(20));
    assert_eq!(*cs.blocked_status.get(EntityId(10)).unwrap(), BlockedStatus::Blocked);
    assert_eq!(cs.blockers.get(EntityId(10)).unwrap(), &vec![EntityId(20)]);
    assert!(cs.blockers.get(EntityId(99)).is_none());
    assert!(cs.blocked_status.get(EntityId(99)).is_none());
    assert!(cs.in_declare_blockers);
    assert!(out.step_end.is_none() && out.damage.is_none());
}

#[test]
fn declare_blockers_step_ends_with_a_damage_request() {
    let mut cs = CombatState::default();
    let mut creatures = EntityMap::new();
    creatures.insert(EntityId(10), creature(3, 3, ""));
    creatures.insert(EntityId(20), creature(2, 2, "first strike"));
    record_attacks(&mut cs, &vec![AttackerDeclaredEvent { attacker: EntityId(10), defender: EntityId(1) }]);
    let out = declare_blockers_system(
        &mut cs,
        &vec![DeclareBlockersEvent { defending_players: vec![EntityId(1)] }],
        &vec![BlockerDeclaredEvent { blocker: EntityId(20), attacker: EntityId(10) }],
        &creatures,
        Phase::Combat(CombatStep::DeclareBlockers),
        EntityId(5),
    );
    assert_eq!(out.step_end.unwrap().player, EntityId(5));
    assert_eq!(out.damage, Some(AssignCombatDamageEvent { is_first_strike: true }));
    assert_eq!(cs.combat_damage_step_number, 1);
    assert!(cs.blockers.entries.iter().all(|(a, _)| cs.attackers.get(*a).is_some()));
    assert!(!cs.in_declare_blockers);

    let mut cs = CombatState::default();
    record_attacks(&mut cs, &vec![AttackerDeclaredEvent { attacker: EntityId(10), defender: EntityId(1) }]);
    let out = declare_blockers_system(
        &mut cs,
        &vec![DeclareBlockersEvent { defending_players: vec![EntityId(1)] }],
        &vec![],
        &creatures,
        Phase::Combat(CombatStep::DeclareBlockers),
        EntityId(5),
    );
    assert_eq!(out.damage, Some(AssignCombatDamageEvent { is_first_strike: false }));
    assert_eq!(cs.combat_damage_step_number, 2);
}

#[test]
fn blocks_wait_for_the_declare_blockers_step() {
    let mut cs = CombatState::default();
    let mut creatures = EntityMap::new();
    creatures.insert(EntityId(20), creature(2, 2, ""));
    let out = declare_blockers_system(
        &mut cs,
        &vec![],
        &vec![BlockerDeclaredEvent { blocker: EntityId(20), attacker: EntityId(10) }],
        &creatures,
        Phase::Combat(CombatStep::DeclareBlockers),
        EntityId(1),
    );
    assert!(out.blocks.is_empty() && out.step_end.is_none() && out.damage.is_none());
    assert_eq!(cs.blockers.len(), 0);
}

#[test]
fn declare_attackers_step_tracks_defenders_and_requests_blockers() {
    let mut cs = CombatState::default();
    let out = declare_attackers_system(
        &mut cs,
        &vec![DeclareAttackersEvent { attacking_player: EntityId(1) }],
        &vec![
            AttackerDeclaredEvent { attacker: EntityId(10), defender: EntityId(2) },
            AttackerDeclaredEvent { attacker: EntityId(11), defender: EntityId(3) },
            AttackerDeclaredEvent { attacker: EntityId(12), defender: EntityId(2) },
        ],
        Phase::Combat(CombatStep::DeclareAttackers),
        EntityId(1),
    );
    assert_eq!(out.step_begins.len(), 1);
    assert_eq!(out.attacks.len(), 3);
    assert_eq!(cs.players_attacked_this_turn, vec![EntityId(2), EntityId(3)]);
    assert_eq!(cs.creatures_attacking_each_player.get(EntityId(2)).unwrap(), &vec![EntityId(10), EntityId(12)]);
    assert_eq!(cs.creatures_attacking_each_player.get(EntityId(3)).unwrap(), &vec![EntityId(11)]);
    assert_eq!(*cs.blocked_status.get(EntityId(11)).unwrap(), BlockedStatus::Unblocked);
    assert_eq!(out.step_end.unwrap().player, EntityId(1));
    assert!(!cs.in_declare_attackers);
    let mut defenders = out.declare_blockers.unwrap().defending_players;
    defenders.sort_by_key(|e| e.0);
    assert_eq!(defenders, vec![EntityId(2), EntityId(3)]);
}

#[test]
fn attacks_outside_the_step_are_not_recorded() {
    let mut cs = CombatState::default();
    let out = declare_attackers_system(
        &mut cs,
        &vec![],
        &vec![AttackerDeclaredEvent { attacker: EntityId(10), defender: EntityId(2) }],
        Phase::Combat(CombatStep::DeclareAttackers),
        EntityId(1),
    );
    assert!(out.attacks.is_empty() && out.step_end.is_none() && out.declare_blockers.is_none());
    assert_eq!(cs.attackers.len(), 0);
    let out = declare_attackers_system(
        &mut cs,
        &vec![DeclareAttackersEvent { attacking_player: EntityId(1) }],
        &vec![],
        Phase::Combat(CombatStep::DeclareAttackers),
        EntityId(1),
    );
    assert!(out.step_end.is_some());
    assert!(out.declare_blockers.is_none());
}

#[test]
fn requests_announce_recorded_attackers_and_blockers() {
    let mut cs = CombatState::default();
    add_attacker_with_target(&mut cs, EntityId(10), EntityId(1));
    assign_blocker(&mut cs, EntityId(10), EntityId(20));
    assign_blocker(&mut cs, EntityId(10), EntityId(21));
    let attacks = handle_declare_attackers_event(&mut cs, &vec![DeclareAttackersEvent { attacking_player: EntityId(1) }]);
    assert_eq!(attacks, vec![AttackerDeclaredEvent { attacker: EntityId(10), defender: EntityId(1) }]);
    assert!(cs.in_declare_attackers);
    let blocks = handle_declare_blockers_event(&mut cs, &vec![DeclareBlockersEvent { defending_players: vec![EntityId(1)] }]);
    assert_eq!(
        blocks,
        vec![
            BlockerDeclaredEvent { blocker: EntityId(20), attacker: EntityId(10) },
            BlockerDeclaredEvent { blocker: EntityId(21), attacker: EntityId(10) },
        ]
    );
    assert!(!cs.in_declare_attackers && cs.in_declare_blockers);
}

#[test]
fn player_takes_only_first_pending_damage() {
    let mut cs = CombatState::default();
    cs.pending_combat_damage.push(CombatDamageEvent { source: EntityId(10), target: EntityId(1), damage: 3, is_combat_damage: true, source_is_commander: false });
    cs.pending_combat_damage.push(CombatDamageEvent { source: EntityId(11), target: EntityId(1), damage: 4, is_combat_damage: true, source_is_commander: false });
    cs.pending_combat_damage.push(CombatDamageEvent { source: EntityId(12), target: EntityId(2), damage: 5, is_combat_damage: true, source_is_commander: false });
    cs.pending_combat_damage.push(CombatDamageEvent { source: EntityId(13), target: EntityId(50), damage: 5, is_combat_damage: true, source_is_commander: false });
    cs.in_combat_damage = true;
    let mut ps = players(&[1, 2, 3], 40);
    process_combat_damage_system(&mut cs, &mut ps);
    assert_eq!(ps.get(EntityId(1)).unwrap().life, 37);
    assert_eq!(ps.get(EntityId(2)).unwrap().life, 35);
    assert_eq!(ps.get(EntityId(3)).unwrap().life, 40);
    assert!(cs.pending_combat_damage.is_empty());
    assert!(!cs.in_combat_damage);
}

#[test]
fn combat_begins_clear_and_ends_clear() {
    let mut cs = CombatState::default();
    add_attacker_with_target(&mut cs, EntityId(10), EntityId(1));
    let begin = initialize_combat_phase(&mut cs, EntityId(1));
    assert_eq!(begin.player, EntityId(1));
    assert_eq!(cs.attackers.len(), 0);
    add_attacker_with_target(&mut cs, EntityId(10), EntityId(1));
    cs.must_attack.insert(EntityId(10), vec![]);
    let end = end_combat_system(&mut cs, EntityId(1));
    assert_eq!(end.player, EntityId(1));
    assert_eq!(cs.attackers.len(), 0);
    assert!(!cs.in_declare_attackers);
    assert_eq!(cs.combat_damage_step_number, 0);
    assert_eq!(cs.must_attack.len(), 1);
}

#[test]
fn block_restrictions_by_power() {
    let mut cs = CombatState::default();
    let mut creatures = EntityMap::new();
    creatures.insert(EntityId(20), creature(2, 2, ""));
    creatures.insert(EntityId(21), creature(5, 5, ""));
    add_attacker_with_target(&mut cs, EntityId(10), EntityId(1));
    cs.cannot_be_blocked_by.insert(EntityId(10), vec![BlockRestriction::Power(Comparison::LessThan, 4)]);
    assert!(!validate_block(EntityId(20), EntityId(10), &creatures, &cs));
    assert!(validate_block(EntityId(21), EntityId(10), &creatures, &cs));
    assert!(!validate_block(EntityId(99), EntityId(10), &creatures, &cs));
}

#[test]
fn test_setup_and_manual_damage() {
    let mut cs = CombatState::default();
    setup_test_combat(
        &mut cs,
        &vec![(EntityId(10), EntityId(1))],
        &vec![(EntityId(20), EntityId(10))],
        &vec![EntityId(10)],
    );
    assert!(cs.in_declare_attackers && cs.in_declare_blockers);
    assert_eq!(*cs.blocked_status.get(EntityId(10)).unwrap(), BlockedStatus::Blocked);
    assert_eq!(cs.blockers.get(EntityId(10)).unwrap().len(), 1);
    assert!(cs.commander_damage_this_combat.get(EntityId(10)).is_some());

    let mut ps = players(&[1, 2], 40);
    let mut gs = GameState {
        active_player: EntityId(1),
        priority_holder: EntityId(1),
        turn_number: 1,
        turn_order: vec![EntityId(1), EntityId(2)],
        main_phase_action_taken: false,
        state_based_actions_performed: false,
        lands_played: vec![],
    };
    let mut commanders = EntityMap::new();
    commanders.insert(EntityId(10), Commander::default());
    let events = vec![
        CombatDamageEvent { source: EntityId(10), target: EntityId(1), damage: 6, is_combat_damage: true, source_is_commander: true },
        CombatDamageEvent { source: EntityId(10), target: EntityId(1), damage: 5, is_combat_damage: true, source_is_commander: true },
    ];
    apply_combat_damage(&mut cs, &mut ps, &mut gs, &mut commanders, &events);
    assert_eq!(ps.get(EntityId(1)).unwrap().life, 29);
    assert!(gs.state_based_actions_performed);
    assert_eq!(commanders.get(EntityId(10)).unwrap().damage_dealt, vec![(EntityId(1), 11)]);
    deal_damage_to_players(&mut ps, 4);
    assert_eq!(ps.get(EntityId(1)).unwrap().life, 25);
    assert_eq!(ps.get(EntityId(2)).unwrap().life, 36);
    deal_damage_to_players(&mut ps, -3);
    assert_eq!(ps.get(EntityId(2)).unwrap().life, 36);
}
