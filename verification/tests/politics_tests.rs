use rummage::combat::CombatState;
use rummage::entity::{EntityId, EntityMap};
use rummage::game::TurnManager;
use rummage::phase::{BeginningStep, EndingStep, Phase};
use rummage::politics::{
    combat_restrictions_system, deal_system, goad_system, manage_combat_restrictions, monarch_system, voting_system,
    ApplyCombatRestrictionEvent, CombatRestriction, Deal, DealBrokenEvent, DealDuration, DealProposedEvent,
    DealResponseEvent, DealStatus, DealTerm, GoadEffect, GoadEvent, MonarchChangedEvent, PoliticsSystem,
    RemoveCombatRestrictionEvent, Vote, VoteCastEvent, VoteChoice, VoteStartedEvent, VowEffect,
};

fn choices() -> Vec<VoteChoice> {
    vec![VoteChoice::new(0, "grace"), VoteChoice::new(1, "condemnation")]
}

fn vote(id: u128, voters: &[u64], all: bool) -> Vote {
    Vote::builder("Council's dilemma", EntityId(1), EntityId(50))
        .id(id)
        .choices(choices())
        .eligible_voters(voters.iter().map(|&v| EntityId(v)).collect())
        .requires_all_players(all)
        .build()
}

fn cast(id: u128, player: u64, choice: usize) -> VoteCastEvent {
    let text = if choice == 0 { "grace" } else { "condemnation" };
    VoteCastEvent { vote_id: id, player: EntityId(player), choice: VoteChoice::new(choice, text) }
}

fn turn_manager(turn: u32, eliminated: Vec<EntityId>) -> TurnManager {
    TurnManager {
        active_player: EntityId(1),
        turn_number: turn,
        current_phase: Phase::Beginning(BeginningStep::Untap),
        player_order: vec![EntityId(1), EntityId(2), EntityId(3)],
        eliminated_players: eliminated,
    }
}

#[test]
fn vote_builder_makes_version_four_ids() {
    let v = Vote::builder("t", EntityId(1), EntityId(2)).build();
    assert_eq!((v.id >> 76) & 0xf, 4);
    assert_eq!(v.title, "t");
    assert!(v.choices.is_empty() && !v.requires_all_players && v.timer.is_none());
    let d = Deal::builder(EntityId(1), EntityId(2)).build();
    assert_eq!((d.id >> 76) & 0xf, 4);
    assert!(matches!(d.duration, DealDuration::Turns(1)));
    assert_eq!(d.status, DealStatus::Proposed);
}

#[test]
fn majority_decides_the_vote() {
    let mut p = PoliticsSystem::default();
    let casts = vec![cast(7, 1, 1), cast(7, 2, 1), cast(8, 3, 0)];
    let done = voting_system(&mut p, vec![VoteStartedEvent { vote: vote(7, &[1, 2, 3], false) }], &casts)
        .expect("two of three voted the same way");
    assert_eq!(done.vote_id, 7);
    assert_eq!(done.winning_choice.id, 1);
    assert_eq!(done.vote_count, 2);
    assert!(p.active_vote.is_none());
    assert_eq!(p.votes_cast.len(), 0);
    assert_eq!(p.vote_weights.len(), 0);
}

#[test]
fn vote_without_majority_stays_open() {
    let mut p = PoliticsSystem::default();
    let casts = vec![cast(7, 1, 1), cast(7, 2, 0)];
    let done = voting_system(&mut p, vec![VoteStartedEvent { vote: vote(7, &[1, 2, 3, 4], false) }], &casts);
    assert!(done.is_none());
    assert!(p.active_vote.is_some());
    assert_eq!(p.votes_cast.len(), 2);
    let tally = p.tally_votes().unwrap();
    assert_eq!(tally.0.id, 1);
    assert_eq!(tally.1, 1);
    assert!(!p.is_vote_decisive());
}

#[test]
fn all_players_must_vote_when_required() {
    let mut p = PoliticsSystem::default();
    let done = voting_system(&mut p, vec![VoteStartedEvent { vote: vote(9, &[1, 2, 3], true) }], &vec![cast(9, 1, 0), cast(9, 2, 0)]);
    assert!(done.is_none());
    let done = voting_system(&mut p, vec![], &vec![cast(9, 3, 1), cast(9, 2, 1)]).expect("everyone voted");
    assert_eq!(done.winning_choice.id, 1);
    assert_eq!(done.vote_count, 2);
}

#[test]
fn later_vote_replaces_earlier_and_weights_count() {
    let mut p = PoliticsSystem::default();
    p.active_vote = Some(vote(3, &[1, 2, 3], false));
    p.vote_weights.insert(EntityId(1), 3);
    p.vote_weights.insert(EntityId(2), 1);
    p.vote_weights.insert(EntityId(3), 1);
    p.votes_cast.insert(EntityId(2), VoteChoice::new(1, "condemnation"));
    p.votes_cast.insert(EntityId(1), VoteChoice::new(1, "condemnation"));
    p.votes_cast.insert(EntityId(1), VoteChoice::new(0, "grace"));
    let (winner, count) = p.tally_votes().unwrap();
    assert_eq!(winner.id, 0);
    assert_eq!(count, 3);
    assert!(p.is_vote_decisive());
}

#[test]
fn tie_goes_to_the_choice_voted_first() {
    let mut p = PoliticsSystem::default();
    p.active_vote = Some(vote(3, &[1, 2], false));
    p.votes_cast.insert(EntityId(1), VoteChoice::new(1, "condemnation"));
    p.votes_cast.insert(EntityId(2), VoteChoice::new(0, "grace"));
    let (winner, count) = p.tally_votes().unwrap();
    assert_eq!(winner.id, 1);
    assert_eq!(count, 1);
    assert!(!p.is_vote_decisive());
}

#[test]
fn tally_without_votes_or_vote_is_none() {
    let mut p = PoliticsSystem::default();
    assert!(p.tally_votes().is_none());
    p.votes_cast.insert(EntityId(1), VoteChoice::new(5, "unknown"));
    assert!(p.tally_votes().is_none());
    p.active_vote = Some(vote(1, &[1], false));
    assert!(p.tally_votes().is_none());
}

#[test]
fn monarch_draws_at_end_of_own_turn() {
    let mut p = PoliticsSystem::default();
    let events = vec![
        MonarchChangedEvent { new_monarch: EntityId(2), previous_monarch: None, source: None },
        MonarchChangedEvent { new_monarch: EntityId(1), previous_monarch: Some(EntityId(2)), source: Some(EntityId(9)) },
    ];
    assert!(monarch_system(&mut p, &events, EntityId(1), Phase::Ending(EndingStep::End)));
    assert_eq!(p.monarch, Some(EntityId(1)));
    assert!(!monarch_system(&mut p, &vec![], EntityId(1), Phase::Beginning(BeginningStep::Upkeep)));
    assert!(!monarch_system(&mut p, &vec![], EntityId(2), Phase::Ending(EndingStep::End)));
    assert_eq!(p.monarch, Some(EntityId(1)));
}

#[test]
fn deals_move_from_pending_to_active_and_break() {
    let mut p = PoliticsSystem::default();
    let d1 = Deal::builder(EntityId(1), EntityId(2)).id(1).add_term(DealTerm::DoNotAttack(2)).build();
    let d2 = Deal::builder(EntityId(1), EntityId(3)).id(2).duration(DealDuration::UntilPlayerEliminated(EntityId(3))).build();
    let d3 = Deal::builder(EntityId(2), EntityId(3)).id(3).build();
    let responses = vec![
        DealResponseEvent { deal_id: 1, accepted: true, responder: EntityId(2) },
        DealResponseEvent { deal_id: 2, accepted: true, responder: EntityId(3) },
        DealResponseEvent { deal_id: 3, accepted: false, responder: EntityId(3) },
        DealResponseEvent { deal_id: 77, accepted: true, responder: EntityId(3) },
    ];
    deal_system(
        &mut p,
        vec![DealProposedEvent { deal: d1 }, DealProposedEvent { deal: d2 }, DealProposedEvent { deal: d3 }],
        &responses,
        &vec![],
        &turn_manager(5, vec![]),
    );
    assert!(p.pending_deals.is_empty());
    assert_eq!(p.active_deals.len(), 2);
    assert_eq!(p.active_deals[0].id, 1);
    assert_eq!(p.active_deals[0].status, DealStatus::Accepted);
    assert!(matches!(p.active_deals[0].terms.as_slice(), [DealTerm::DoNotAttack(2)]));
    assert_eq!(p.active_deals[1].id, 2);

    deal_system(
        &mut p,
        vec![],
        &vec![],
        &vec![DealBrokenEvent { deal_id: 1, breaker: EntityId(1), reason: "attacked".to_string() }],
        &turn_manager(6, vec![]),
    );
    assert_eq!(p.active_deals.len(), 1);
    assert_eq!(p.active_deals[0].id, 2);

    deal_system(&mut p, vec![], &vec![], &vec![], &turn_manager(7, vec![EntityId(3)]));
    assert!(p.active_deals.is_empty());
}

#[test]
fn unanswered_deal_stays_pending() {
    let mut p = PoliticsSystem::default();
    let d = Deal::builder(EntityId(1), EntityId(2)).id(4).duration(DealDuration::Turns(3)).build();
    deal_system(&mut p, vec![DealProposedEvent { deal: d }], &vec![], &vec![], &turn_manager(1, vec![]));
    assert_eq!(p.pending_deals.len(), 1);
    assert_eq!(p.pending_deals[0].id, 4);
    deal_system(&mut p, vec![], &vec![DealResponseEvent { deal_id: 4, accepted: true, responder: EntityId(2) }], &vec![], &turn_manager(1000, vec![]));
    assert_eq!(p.active_deals.len(), 1);
}

#[test]
fn deal_for_some_turns_expires_after_them() {
    let mut p = PoliticsSystem::default();
    let d = Deal::builder(EntityId(1), EntityId(2)).id(8).duration(DealDuration::Turns(1)).build();
    deal_system(&mut p, vec![DealProposedEvent { deal: d }], &vec![], &vec![], &turn_manager(5, vec![]));
    deal_system(&mut p, vec![], &vec![DealResponseEvent { deal_id: 8, accepted: true, responder: EntityId(2) }], &vec![], &turn_manager(5, vec![]));
    assert_eq!(p.active_deals.len(), 1);
    assert_eq!(p.active_deals[0].accepted_turn, 5);
    deal_system(&mut p, vec![], &vec![], &vec![], &turn_manager(6, vec![]));
    assert_eq!(p.active_deals.len(), 1);
    deal_system(&mut p, vec![], &vec![], &vec![], &turn_manager(7, vec![]));
    assert!(p.active_deals.is_empty());
}

#[test]
fn deal_for_zero_turns_ends_the_next_turn() {
    let mut p = PoliticsSystem::default();
    let d = Deal::builder(EntityId(1), EntityId(2)).id(9).duration(DealDuration::Turns(0)).build();
    deal_system(
        &mut p,
        vec![DealProposedEvent { deal: d }],
        &vec![DealResponseEvent { deal_id: 9, accepted: true, responder: EntityId(2) }],
        &vec![],
        &turn_manager(3, vec![]),
    );
    assert_eq!(p.active_deals.len(), 1);
    deal_system(&mut p, vec![], &vec![], &vec![], &turn_manager(4, vec![]));
    assert!(p.active_deals.is_empty());
}

#[test]
fn goad_forces_attacks_and_wears_off() {
    let mut p = PoliticsSystem::default();
    goad_system(&mut p, &vec![GoadEvent { target: EntityId(30), source: EntityId(2), duration: 2 }], 4);
    let effects = p.goad_effects.get(EntityId(30)).unwrap();
    assert_eq!(effects, &vec![GoadEffect { target: EntityId(30), source: EntityId(2), duration: 2, created_at: 4 }]);
    let restrictions = p.combat_restrictions.get(EntityId(30)).unwrap();
    assert_eq!(restrictions, &vec![CombatRestriction::MustAttack, CombatRestriction::CannotAttackPlayer(EntityId(2))]);

    let mut cs = CombatState::default();
    combat_restrictions_system(&p, &mut cs);
    assert!(cs.must_attack.get(EntityId(30)).unwrap().is_empty());
    assert_eq!(cs.cannot_attack.get(EntityId(30)).unwrap(), &vec![EntityId(2)]);

    goad_system(&mut p, &vec![], 5);
    assert!(p.goad_effects.get(EntityId(30)).is_some());
    goad_system(&mut p, &vec![], 6);
    assert!(p.goad_effects.get(EntityId(30)).is_none());
    assert!(p.combat_restrictions.get(EntityId(30)).is_none());
}

#[test]
fn restrictions_are_applied_once_and_removed() {
    let mut p = PoliticsSystem::default();
    let apply = vec![
        ApplyCombatRestrictionEvent { target: EntityId(30), restriction: CombatRestriction::CannotBlock, source: None, duration: None },
        ApplyCombatRestrictionEvent { target: EntityId(30), restriction: CombatRestriction::CannotBlock, source: None, duration: Some(1) },
        ApplyCombatRestrictionEvent {
            target: EntityId(30),
            restriction: CombatRestriction::MustAttackPlayer(EntityId(4)),
            source: None,
            duration: None,
        },
        ApplyCombatRestrictionEvent { target: EntityId(31), restriction: CombatRestriction::MustAttack, source: None, duration: None },
    ];
    manage_combat_restrictions(&mut p, &apply, &vec![]);
    assert_eq!(
        p.combat_restrictions.get(EntityId(30)).unwrap(),
        &vec![CombatRestriction::CannotBlock, CombatRestriction::MustAttackPlayer(EntityId(4))]
    );
    let mut cs = CombatState::default();
    combat_restrictions_system(&p, &mut cs);
    assert_eq!(cs.must_attack.get(EntityId(30)).unwrap(), &vec![EntityId(4)]);
    assert!(cs.must_attack.get(EntityId(31)).unwrap().is_empty());

    let remove = vec![
        RemoveCombatRestrictionEvent { target: EntityId(30), restriction: Some(CombatRestriction::CannotBlock) },
        RemoveCombatRestrictionEvent { target: EntityId(31), restriction: None },
    ];
    manage_combat_restrictions(&mut p, &vec![], &remove);
    assert_eq!(p.combat_restrictions.get(EntityId(30)).unwrap(), &vec![CombatRestriction::MustAttackPlayer(EntityId(4))]);
    assert!(p.combat_restrictions.get(EntityId(31)).is_none());
}

#[test]
fn effect_builders_set_their_fields() {
    let g = GoadEffect::builder(EntityId(1), EntityId(2)).duration(3).created_at(7).build();
    assert_eq!(g, GoadEffect { target: EntityId(1), source: EntityId(2), duration: 3, created_at: 7 });
    let v = VowEffect::builder(EntityId(1), EntityId(4)).duration(Some(2)).created_at(5).build();
    assert_eq!(v.protected_player, EntityId(4));
    assert_eq!(v.duration, Some(2));
    assert_eq!(v.created_at, 5);
    let c = VoteChoice::builder(3, "x").target(EntityId(8)).build();
    assert_eq!(c.id, 3);
    assert_eq!(c.text, "x");
    assert_eq!(c.target, Some(EntityId(8)));
    let _ = EntityMap::<u32>::new();
}

#[test]
fn vote_builder_adds_choices_and_voters() {
    let v = Vote::builder("t", EntityId(1), EntityId(2))
        .add_choice(VoteChoice::new(0, "a"))
        .add_choice(VoteChoice::new(1, "b"))
        .add_voter(EntityId(5))
        .add_voter(EntityId(6))
        .build();
    assert_eq!(v.choices.len(), 2);
    assert_eq!(v.choices[1].text, "b");
    assert_eq!(v.eligible_voters, vec![EntityId(5), EntityId(6)]);
}

#[test]
fn goad_expiry_keeps_lasting_effects_and_other_restrictions() {
    let mut p = PoliticsSystem::default();
    goad_system(
        &mut p,
        &vec![
            GoadEvent { target: EntityId(30), source: EntityId(2), duration: 1 },
            GoadEvent { target: EntityId(31), source: EntityId(2), duration: 1 },
            GoadEvent { target: EntityId(31), source: EntityId(3), duration: 5 },
        ],
        4,
    );
    p.combat_restrictions.push_to(EntityId(30), CombatRestriction::CannotBlock);
    goad_system(&mut p, &vec![], 5);
    assert!(p.goad_effects.get(EntityId(30)).is_none());
    assert_eq!(p.combat_restrictions.get(EntityId(30)).unwrap(), &vec![CombatRestriction::CannotBlock]);
    assert_eq!(
        p.goad_effects.get(EntityId(31)).unwrap(),
        &vec![GoadEffect { target: EntityId(31), source: EntityId(3), duration: 5, created_at: 4 }]
    );
    assert!(p.combat_restrictions.get(EntityId(31)).unwrap().contains(&CombatRestriction::MustAttack));
}

#[test]
fn broken_deals_leave_and_unknown_breaches_change_nothing() {
    let mut p = PoliticsSystem::default();
    let d1 = Deal::builder(EntityId(1), EntityId(2)).id(1).build();
    let d2 = Deal::builder(EntityId(1), EntityId(3)).id(2).build();
    deal_system(
        &mut p,
        vec![DealProposedEvent { deal: d1 }, DealProposedEvent { deal: d2 }],
        &vec![
            DealResponseEvent { deal_id: 1, accepted: true, responder: EntityId(2) },
            DealResponseEvent { deal_id: 2, accepted: true, responder: EntityId(3) },
        ],
        &vec![],
        &turn_manager(2, vec![]),
    );
    deal_system(
        &mut p,
        vec![],
        &vec![DealResponseEvent { deal_id: 9, accepted: true, responder: EntityId(3) }],
        &vec![
            DealBrokenEvent { deal_id: 9, breaker: EntityId(1), reason: "none".to_string() },
            DealBrokenEvent { deal_id: 2, breaker: EntityId(1), reason: "attacked".to_string() },
        ],
        &turn_manager(3, vec![]),
    );
    assert_eq!(p.active_deals.len(), 1);
    assert_eq!(p.active_deals[0].id, 1);
    assert!(p.pending_deals.is_empty());
}
