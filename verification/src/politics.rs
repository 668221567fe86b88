//! Multiplayer politics: the monarch, votes, deals between players, goad and
//! the combat restrictions that political effects impose.

use vstd::prelude::*;
use std::time::{Duration, Instant};
use crate::clock::{new_uuid_v4, now};
use crate::combat::CombatState;
use crate::entity::{
    EntityId, EntityMap, add_unique, lemma_push_to_lists, list_opt, list_or_empty, seq_at, vec_contains, vec_lists,
    vec_push_unique,
};
use crate::game::TurnManager;
use crate::phase::Phase;

verus! {

/// A choice in a vote.
#[derive(Debug)]
pub struct VoteChoice {
    /// Identifier of the choice.
    pub id: usize,
    /// What the choice says.
    pub text: String,
    /// The entity the choice is about, if any.
    pub target: Option<EntityId>,
}

impl Clone for VoteChoice {
    fn clone(&self) -> (c: Self)
        ensures
            c == *self,
    {
        VoteChoice { id: self.id, text: self.text.clone(), target: self.target }
    }
}

impl VoteChoice {
    /// A choice with the given id and text and no target.
    pub fn new(id: usize, text: &str) -> (c: Self)
        ensures
            c.id == id,
            c.text@ == text@,
            c.target is None,
    {
        VoteChoice { id, text: String::from_str(text), target: None }
    }

    /// A builder for a choice.
    pub fn builder(id: usize, text: &str) -> (b: VoteChoiceBuilder)
        ensures
            b.id == id,
            b.text@ == text@,
            b.target is None,
    {
        VoteChoiceBuilder::new(id, text)
    }
}

/// Builds a vote choice step by step.
pub struct VoteChoiceBuilder {
    pub id: usize,
    pub text: String,
    pub target: Option<EntityId>,
}

impl VoteChoiceBuilder {
    /// A builder with the given id and text and no target.
    pub fn new(id: usize, text: &str) -> (b: Self)
        ensures
            b.id == id,
            b.text@ == text@,
            b.target is None,
    {
        VoteChoiceBuilder { id, text: String::from_str(text), target: None }
    }

    /// Sets the target.
    pub fn target(self, target: EntityId) -> (b: Self)
        ensures
            b == (VoteChoiceBuilder { target: Some(target), ..self }),
    {
        VoteChoiceBuilder { target: Some(target), ..self }
    }

    /// The configured choice.
    pub fn build(self) -> (c: VoteChoice)
        ensures
            c.id == self.id,
            c.text == self.text,
            c.target == self.target,
    {
        VoteChoice { id: self.id, text: self.text, target: self.target }
    }
}

/// A vote in progress.
pub struct Vote {
    /// Unique identifier (the 128-bit value of a UUID).
    pub id: u128,
    pub title: String,
    /// The card or effect that created the vote.
    pub source: EntityId,
    /// The player who controls the voting effect.
    pub controller: EntityId,
    pub choices: Vec<VoteChoice>,
    pub eligible_voters: Vec<EntityId>,
    /// Whether every eligible player must vote.
    pub requires_all_players: bool,
    pub timer: Option<Duration>,
    pub created_at: Instant,
}

impl Vote {
    /// A builder for a vote with a fresh identifier, created now.
    pub fn builder(title: &str, controller: EntityId, source: EntityId) -> (b: VoteBuilder)
        ensures
            b.title@ == title@,
            b.controller == controller,
            b.source == source,
            (b.id >> 76u128) & 0xfu128 == 4,
            b.choices@.len() == 0,
            b.eligible_voters@.len() == 0,
            !b.requires_all_players,
            b.timer is None,
    {
        VoteBuilder::new(title, controller, source)
    }
}

/// Builds a vote step by step.
pub struct VoteBuilder {
    pub id: u128,
    pub title: String,
    pub source: EntityId,
    pub controller: EntityId,
    pub choices: Vec<VoteChoice>,
    pub eligible_voters: Vec<EntityId>,
    pub requires_all_players: bool,
    pub timer: Option<Duration>,
    pub created_at: Instant,
}

impl VoteBuilder {
    /// A builder with a fresh identifier, created now, with no choices and no voters.
    pub fn new(title: &str, controller: EntityId, source: EntityId) -> (b: Self)
        ensures
            b.title@ == title@,
            b.controller == controller,
            b.source == source,
            (b.id >> 76u128) & 0xfu128 == 4,
            b.choices@.len() == 0,
            b.eligible_voters@.len() == 0,
            !b.requires_all_players,
            b.timer is None,
    {
        VoteBuilder {
            id: new_uuid_v4(),
            title: String::from_str(title),
            source,
            controller,
            choices: Vec::new(),
            eligible_voters: Vec::new(),
            requires_all_players: false,
            timer: None,
            created_at: now(),
        }
    }

    /// Sets the identifier.
    pub fn id(self, id: u128) -> (b: Self)
        ensures
            b == (VoteBuilder { id, ..self }),
    {
        VoteBuilder { id, ..self }
    }

    /// Adds a choice.
    pub fn add_choice(self, choice: VoteChoice) -> (b: Self)
        ensures
            b.choices@ == self.choices@.push(choice),
            b == (VoteBuilder { choices: b.choices, ..self }),
    {
        let mut b = self;
        b.choices.push(choice);
        b
    }

    /// Sets all choices.
    pub fn choices(self, choices: Vec<VoteChoice>) -> (b: Self)
        ensures
            b == (VoteBuilder { choices, ..self }),
    {
        VoteBuilder { choices, ..self }
    }

    /// Adds an eligible voter.
    pub fn add_voter(self, voter: EntityId) -> (b: Self)
        ensures
            b.eligible_voters@ == self.eligible_voters@.push(voter),
            b == (VoteBuilder { eligible_voters: b.eligible_voters, ..self }),
    {
        let mut b = self;
        b.eligible_voters.push(voter);
        b
    }

    /// Sets all eligible voters.
    pub fn eligible_voters(self, voters: Vec<EntityId>) -> (b: Self)
        ensures
            b == (VoteBuilder { eligible_voters: voters, ..self }),
    {
        VoteBuilder { eligible_voters: voters, ..self }
    }

    /// Sets whether every player must vote.
    pub fn requires_all_players(self, all_must_vote: bool) -> (b: Self)
        ensures
            b == (VoteBuilder { requires_all_players: all_must_vote, ..self }),
    {
        VoteBuilder { requires_all_players: all_must_vote, ..self }
    }

    /// Sets a timer.
    pub fn timer(self, duration: Duration) -> (b: Self)
        ensures
            b == (VoteBuilder { timer: Some(duration), ..self }),
    {
        VoteBuilder { timer: Some(duration), ..self }
    }

    /// Sets the creation time.
    pub fn created_at(self, time: Instant) -> (b: Self)
        ensures
            b == (VoteBuilder { created_at: time, ..self }),
    {
        VoteBuilder { created_at: time, ..self }
    }

    /// The configured vote.
    pub fn build(self) -> (v: Vote)
        ensures
            v.id == self.id,
            v.title == self.title,
            v.source == self.source,
            v.controller == self.controller,
            v.choices == self.choices,
            v.eligible_voters == self.eligible_voters,
            v.requires_all_players == self.requires_all_players,
            v.timer == self.timer,
            v.created_at == self.created_at,
    {
        Vote {
            id: self.id,
            title: self.title,
            source: self.source,
            controller: self.controller,
            choices: self.choices,
            eligible_voters: self.eligible_voters,
            requires_all_players: self.requires_all_players,
            timer: self.timer,
            created_at: self.created_at,
        }
    }
}

/// Kinds of actions a deal may allow.
#[derive(Clone, Copy, PartialEq, Eq, Structural, Debug)]
pub enum ActionType {
    Attack,
    CastSpell,
    ActivateAbility,
    DestroyPermanent,
    Other,
}

/// A term of a deal between players.
#[derive(Debug)]
pub enum DealTerm {
    /// Do not attack for this many turns.
    DoNotAttack(u32),
    /// No harmful actions for this many turns.
    Truce(u32),
    /// Defend together against a player.
    SharedDefense { against: EntityId, turns: u32 },
    /// Target another player.
    TargetOtherPlayer { target: EntityId, turns: u32 },
    /// Allow an action.
    AllowAction { action_type: ActionType, turns: u32 },
    /// Anything else, in words.
    Custom(String),
}

/// The state of a deal.
#[derive(Clone, Copy, PartialEq, Eq, Structural, Debug)]
pub enum DealStatus {
    Proposed,
    Accepted,
    Rejected,
    /// Broken by the given player.
    Broken(EntityId),
    Expired,
}

/// How long a deal lasts.
#[derive(Debug)]
pub enum DealDuration {
    Turns(u32),
    UntilEndOfGame,
    UntilPlayerEliminated(EntityId),
    Custom(String),
}

/// A deal between two players.
pub struct Deal {
    /// Unique identifier (the 128-bit value of a UUID).
    pub id: u128,
    pub proposer: EntityId,
    pub target: EntityId,
    pub terms: Vec<DealTerm>,
    pub duration: DealDuration,
    pub status: DealStatus,
    pub created_at: Instant,
    /// The turn on which the deal was accepted (0 until it is).
    pub accepted_turn: u32,
}

impl Deal {
    /// A builder for a deal between two players.
    pub fn builder(proposer: EntityId, target: EntityId) -> (b: DealBuilder)
        ensures
            b.proposer == proposer,
            b.target == target,
            (b.id >> 76u128) & 0xfu128 == 4,
            b.terms@.len() == 0,
            b.duration == DealDuration::Turns(1),
            b.status == DealStatus::Proposed,
    {
        DealBuilder::new(proposer, target)
    }
}

/// Builds a deal step by step.
pub struct DealBuilder {
    pub id: u128,
    pub proposer: EntityId,
    pub target: EntityId,
    pub terms: Vec<DealTerm>,
    pub duration: DealDuration,
    pub status: DealStatus,
    pub created_at: Instant,
}

impl DealBuilder {
    /// A proposed deal for one turn with a fresh identifier, created now.
    pub fn new(proposer: EntityId, target: EntityId) -> (b: Self)
        ensures
            b.proposer == proposer,
            b.target == target,
            (b.id >> 76u128) & 0xfu128 == 4,
            b.terms@.len() == 0,
            b.duration == DealDuration::Turns(1),
            b.status == DealStatus::Proposed,
    {
        DealBuilder {
            id: new_uuid_v4(),
            proposer,
            target,
            terms: Vec::new(),
            duration: DealDuration::Turns(1),
            status: DealStatus::Proposed,
            created_at: now(),
        }
    }

    /// Sets the identifier.
    pub fn id(self, id: u128) -> (b: Self)
        ensures
            b == (DealBuilder { id, ..self }),
    {
        DealBuilder { id, ..self }
    }

    /// Adds a term.
    pub fn add_term(self, term: DealTerm) -> (b: Self)
        ensures
            b.terms@ == self.terms@.push(term),
            b == (DealBuilder { terms: b.terms, ..self }),
    {
        let mut b = self;
        b.terms.push(term);
        b
    }

    /// Sets all terms.
    pub fn terms(self, terms: Vec<DealTerm>) -> (b: Self)
        ensures
            b == (DealBuilder { terms, ..self }),
    {
        DealBuilder { terms, ..self }
    }

    /// Sets the duration.
    pub fn duration(self, duration: DealDuration) -> (b: Self)
        ensures
            b == (DealBuilder { duration, ..self }),
    {
        DealBuilder { duration, ..self }
    }

    /// Sets the status.
    pub fn status(self, status: DealStatus) -> (b: Self)
        ensures
            b == (DealBuilder { status, ..self }),
    {
        DealBuilder { status, ..self }
    }

    /// Sets the creation time.
    pub fn created_at(self, time: Instant) -> (b: Self)
        ensures
            b == (DealBuilder { created_at: time, ..self }),
    {
        DealBuilder { created_at: time, ..self }
    }

    /// The configured deal.
    pub fn build(self) -> (d: Deal)
        ensures
            d.id == self.id,
            d.proposer == self.proposer,
            d.target == self.target,
            d.terms == self.terms,
            d.duration == self.duration,
            d.status == self.status,
            d.created_at == self.created_at,
            d.accepted_turn == 0,
    {
        Deal {
            id: self.id,
            proposer: self.proposer,
            target: self.target,
            terms: self.terms,
            duration: self.duration,
            status: self.status,
            created_at: self.created_at,
            accepted_turn: 0,
        }
    }
}

/// A goad effect on a creature.
#[derive(Clone, Copy, PartialEq, Eq, Structural, Debug)]
pub struct GoadEffect {
    /// The goaded creature.
    pub target: EntityId,
    /// The player who goaded it.
    pub source: EntityId,
    /// How many turns it lasts.
    pub duration: u32,
    /// The turn it was created.
    pub created_at: u32,
}

impl GoadEffect {
    /// A builder for a goad effect lasting one turn from turn 0.
    pub fn builder(target: EntityId, source: EntityId) -> (b: GoadEffectBuilder)
        ensures
            b == (GoadEffectBuilder { target, source, duration: 1, created_at: 0 }),
    {
        GoadEffectBuilder::new(target, source)
    }
}

/// Builds a goad effect step by step.
#[derive(Clone, Copy, PartialEq, Eq, Structural, Debug)]
pub struct GoadEffectBuilder {
    pub target: EntityId,
    pub source: EntityId,
    pub duration: u32,
    pub created_at: u32,
}

impl GoadEffectBuilder {
    /// A goad lasting one turn, created on turn 0.
    pub fn new(target: EntityId, source: EntityId) -> (b: Self)
        ensures
            b == (GoadEffectBuilder { target, source, duration: 1, created_at: 0 }),
    {
        GoadEffectBuilder { target, source, duration: 1, created_at: 0 }
    }

    /// Sets the duration.
    pub fn duration(self, duration: u32) -> (b: Self)
        ensures
            b == (GoadEffectBuilder { duration, ..self }),
    {
        GoadEffectBuilder { duration, ..self }
    }

    /// Sets the turn of creation.
    pub fn created_at(self, turn_number: u32) -> (b: Self)
        ensures
            b == (GoadEffectBuilder { created_at: turn_number, ..self }),
    {
        GoadEffectBuilder { created_at: turn_number, ..self }
    }

    /// The configured goad effect.
    pub fn build(self) -> (g: GoadEffect)
        ensures
            g == (GoadEffect { target: self.target, source: self.source, duration: self.duration, created_at: self.created_at }),
    {
        GoadEffect { target: self.target, source: self.source, duration: self.duration, created_at: self.created_at }
    }
}

/// A vow effect on a creature.
#[derive(Clone, Copy, PartialEq, Eq, Structural, Debug)]
pub struct VowEffect {
    /// The creature with the vow.
    pub target: EntityId,
    /// The player the vow protects.
    pub protected_player: EntityId,
    /// How many turns it lasts; `None` for ever.
    pub duration: Option<u32>,
    /// The turn it was created.
    pub created_at: u32,
}

impl VowEffect {
    /// A builder for a permanent vow created on turn 0.
    pub fn builder(target: EntityId, protected_player: EntityId) -> (b: VowEffectBuilder)
        ensures
            b == (VowEffectBuilder { target, protected_player, duration: None, created_at: 0 }),
    {
        VowEffectBuilder::new(target, protected_player)
    }
}

/// Builds a vow effect step by step.
#[derive(Clone, Copy, PartialEq, Eq, Structural, Debug)]
pub struct VowEffectBuilder {
    pub target: EntityId,
    pub protected_player: EntityId,
    pub duration: Option<u32>,
    pub created_at: u32,
}

impl VowEffectBuilder {
    /// A permanent vow created on turn 0.
    pub fn new(target: EntityId, protected_player: EntityId) -> (b: Self)
        ensures
            b == (VowEffectBuilder { target, protected_player, duration: None, created_at: 0 }),
    {
        VowEffectBuilder { target, protected_player, duration: None, created_at: 0 }
    }

    /// Sets how many turns the vow lasts.
    pub fn duration(self, duration: Option<u32>) -> (b: Self)
        ensures
            b == (VowEffectBuilder { duration, ..self }),
    {
        VowEffectBuilder { duration, ..self }
    }

    /// Sets the turn of creation.
    pub fn created_at(self, turn_number: u32) -> (b: Self)
        ensures
            b == (VowEffectBuilder { created_at: turn_number, ..self }),
    {
        VowEffectBuilder { created_at: turn_number, ..self }
    }

    /// The configured vow effect.
    pub fn build(self) -> (v: VowEffect)
        ensures
            v == (VowEffect {
                target: self.target,
                protected_player: self.protected_player,
                duration: self.duration,
                created_at: self.created_at,
            }),
    {
        VowEffect {
            target: self.target,
            protected_player: self.protected_player,
            duration: self.duration,
            created_at: self.created_at,
        }
    }
}

/// A combat restriction imposed by a political effect.
#[derive(Clone, Copy, PartialEq, Eq, Structural, Debug)]
pub enum CombatRestriction {
    /// Must attack if able.
    MustAttack,
    /// Must attack this player if able.
    MustAttackPlayer(EntityId),
    /// Cannot attack this player.
    CannotAttackPlayer(EntityId),
    /// Cannot block.
    CannotBlock,
    /// Cannot block attacks against this player.
    CannotBlockAttacksAgainst(EntityId),
}

/// The politics of a multiplayer game.
pub struct PoliticsSystem {
    /// The monarch, if any.
    pub monarch: Option<EntityId>,
    /// The player with the initiative, if any.
    pub initiative_holder: Option<EntityId>,
    /// Goad effects on each creature.
    pub goad_effects: EntityMap<Vec<GoadEffect>>,
    /// Vow effects on each creature.
    pub vow_effects: EntityMap<Vec<VowEffect>>,
    /// The vote in progress, if any.
    pub active_vote: Option<Vote>,
    /// The choice each player has voted for.
    pub votes_cast: EntityMap<VoteChoice>,
    /// Each player's voting weight.
    pub vote_weights: EntityMap<u32>,
    /// Deals proposed and not yet answered.
    pub pending_deals: Vec<Deal>,
    /// Deals in force.
    pub active_deals: Vec<Deal>,
    /// Each player's allies.
    pub alliances: EntityMap<Vec<EntityId>>,
    /// Combat restrictions on each creature.
    pub combat_restrictions: EntityMap<Vec<CombatRestriction>>,
}

impl PoliticsSystem {
    /// Every map is well formed.
    pub open spec fn wf(&self) -> bool {
        &&& self.goad_effects.wf()
        &&& self.vow_effects.wf()
        &&& self.votes_cast.wf()
        &&& self.vote_weights.wf()
        &&& self.alliances.wf()
        &&& self.combat_restrictions.wf()
    }
}

impl Default for PoliticsSystem {
    fn default() -> (p: Self)
        ensures
            p.wf(),
            p.monarch is None,
            p.initiative_holder is None,
            p.goad_effects@ == Map::<EntityId, Vec<GoadEffect>>::empty(),
            p.vow_effects@ == Map::<EntityId, Vec<VowEffect>>::empty(),
            p.active_vote is None,
            p.votes_cast.entries@.len() == 0,
            p.vote_weights.entries@.len() == 0,
            p.pending_deals@.len() == 0,
            p.active_deals@.len() == 0,
            p.alliances@ == Map::<EntityId, Vec<EntityId>>::empty(),
            p.combat_restrictions@ == Map::<EntityId, Vec<CombatRestriction>>::empty(),
    {
        PoliticsSystem {
            monarch: None,
            initiative_holder: None,
            goad_effects: EntityMap::new(),
            vow_effects: EntityMap::new(),
            active_vote: None,
            votes_cast: EntityMap::new(),
            vote_weights: EntityMap::new(),
            pending_deals: Vec::new(),
            active_deals: Vec::new(),
            alliances: EntityMap::new(),
            combat_restrictions: EntityMap::new(),
        }
    }
}

/// A player's voting weight: 1 unless one is recorded.
pub open spec fn weight_of(weights: Map<EntityId, u32>, p: EntityId) -> nat {
    if weights.dom().contains(p) {
        weights[p] as nat
    } else {
        1
    }
}

/// The position of choice `id` in a tally.
pub open spec fn count_index(counts: Seq<(usize, nat)>, id: usize) -> Option<int>
    decreases counts.len(),
{
    if counts.len() == 0 {
        None
    } else {
        match count_index(counts.drop_last(), id) {
            Some(i) => Some(i),
            None => if counts.last().0 == id {
                Some(counts.len() - 1)
            } else {
                None
            },
        }
    }
}

/// The votes counted for choice `id` in a tally.
pub open spec fn count_value(counts: Seq<(usize, nat)>, id: usize) -> nat {
    match count_index(counts, id) {
        Some(i) => counts[i].1,
        None => 0,
    }
}

/// A tally with `w` more votes for choice `id` (a new choice goes last).
pub open spec fn add_vote(counts: Seq<(usize, nat)>, id: usize, w: nat) -> Seq<(usize, nat)> {
    match count_index(counts, id) {
        Some(i) => counts.update(i, (id, counts[i].1 + w)),
        None => counts.push((id, w)),
    }
}

/// The tally of the votes of `voters` (in order): each choice with its
/// weighted votes, in the order in which choices first received a vote.
pub open spec fn tally(voters: Seq<EntityId>, votes: Map<EntityId, VoteChoice>, weights: Map<EntityId, u32>) -> Seq<(usize, nat)>
    decreases voters.len(),
{
    if voters.len() == 0 {
        Seq::empty()
    } else {
        add_vote(tally(voters.drop_last(), votes, weights), votes[voters.last()].id, weight_of(weights, voters.last()))
    }
}

/// The first choice of a tally with the most votes, starting from choice 0
/// with no votes: a later choice wins only with strictly more votes.
pub open spec fn best(counts: Seq<(usize, nat)>) -> (usize, nat)
    decreases counts.len(),
{
    if counts.len() == 0 {
        (0, 0)
    } else {
        let b = best(counts.drop_last());
        if counts.last().1 > b.1 {
            counts.last()
        } else {
            b
        }
    }
}

/// No choice's votes exceed 32 bits.
pub open spec fn tally_fits(voters: Seq<EntityId>, votes: Map<EntityId, VoteChoice>, weights: Map<EntityId, u32>) -> bool {
    forall|id: usize| #[trigger] count_value(tally(voters, votes, weights), id) <= u32::MAX
}

/// The first choice with identifier `id`.
pub open spec fn choice_with_id(choices: Seq<VoteChoice>, id: usize) -> Option<VoteChoice>
    decreases choices.len(),
{
    if choices.len() == 0 {
        None
    } else {
        match choice_with_id(choices.drop_last(), id) {
            Some(c) => Some(c),
            None => if choices.last().id == id {
                Some(choices.last())
            } else {
                None
            },
        }
    }
}

/// The winning choice of the votes and its votes: none without votes, or
/// when the winning identifier is not a choice of the active vote.
pub open spec fn tally_result(
    active: Option<Vote>,
    voters: Seq<EntityId>,
    votes: Map<EntityId, VoteChoice>,
    weights: Map<EntityId, u32>,
) -> Option<(VoteChoice, u32)> {
    if voters.len() == 0 {
        None
    } else {
        let b = best(tally(voters, votes, weights));
        match active {
            Some(v) => match choice_with_id(v.choices@, b.0) {
                Some(c) => Some((c, b.1 as u32)),
                None => None,
            },
            None => None,
        }
    }
}

/// The total voting weight of `voters`.
pub open spec fn total_weight(voters: Seq<EntityId>, weights: Map<EntityId, u32>) -> nat
    decreases voters.len(),
{
    if voters.len() == 0 {
        0
    } else {
        total_weight(voters.drop_last(), weights) + weight_of(weights, voters.last())
    }
}

/// Whether the active vote is decided: every eligible player has voted when
/// all must vote; otherwise the winning choice has more than half of the
/// total weight of the eligible players.
pub open spec fn decisive(
    active: Option<Vote>,
    voters: Seq<EntityId>,
    votes: Map<EntityId, VoteChoice>,
    weights: Map<EntityId, u32>,
) -> bool {
    match active {
        None => false,
        Some(v) => if v.requires_all_players {
            forall|i: int| 0 <= i < v.eligible_voters@.len() ==> votes.dom().contains(#[trigger] v.eligible_voters@[i])
        } else {
            match tally_result(active, voters, votes, weights) {
                Some(r) => r.1 > total_weight(v.eligible_voters@, weights) / 2,
                None => false,
            }
        },
    }
}

/// The counting can be done in 32 bits: no choice's votes, and not the total
/// weight of the eligible players, exceed it.
pub open spec fn counting_fits(
    active: Option<Vote>,
    voters: Seq<EntityId>,
    votes: Map<EntityId, VoteChoice>,
    weights: Map<EntityId, u32>,
) -> bool {
    &&& tally_fits(voters, votes, weights)
    &&& match active {
        Some(v) => total_weight(v.eligible_voters@, weights) <= u32::MAX,
        None => true,
    }
}

/// Adding votes changes exactly the count of the choice voted for.
proof fn lemma_add_vote_value(counts: Seq<(usize, nat)>, id: usize, w: nat, other: usize)
    ensures
        count_value(add_vote(counts, id, w), other) == count_value(counts, other) + if id == other { w } else { 0 },
        add_vote(counts, id, w).len() >= counts.len(),
{
    let r = add_vote(counts, id, w);
    match count_index(counts, id) {
        Some(i) => {
            lemma_count_index_found(counts, id);
            lemma_count_index_keys(counts, r, other);
            if count_index(counts, other) is Some {
                lemma_count_index_found(counts, other);
            }
        },
        None => {
            assert(r.drop_last() =~= counts);
            if count_index(counts, other) is Some {
                lemma_count_index_found(counts, other);
            }
        },
    }
}

/// A found position is in range and holds the choice.
proof fn lemma_count_index_found(s: Seq<(usize, nat)>, id: usize)
    requires
        count_index(s, id) is Some,
    ensures
        0 <= count_index(s, id)->0 < s.len(),
        s[count_index(s, id)->0].0 == id,
    decreases s.len(),
{
    if count_index(s.drop_last(), id) is Some {
        lemma_count_index_found(s.drop_last(), id);
    }
}

/// Positions only depend on the choice identifiers.
proof fn lemma_count_index_keys(s: Seq<(usize, nat)>, t: Seq<(usize, nat)>, id: usize)
    requires
        s.len() == t.len(),
        forall|j: int| 0 <= j < s.len() ==> #[trigger] s[j].0 == t[j].0,
    ensures
        count_index(s, id) == count_index(t, id),
    decreases s.len(),
{
    if s.len() > 0 {
        lemma_count_index_keys(s.drop_last(), t.drop_last(), id);
    }
}

/// Counts only grow as more votes are tallied.
proof fn lemma_tally_monotone(voters: Seq<EntityId>, votes: Map<EntityId, VoteChoice>, weights: Map<EntityId, u32>, k: int, id: usize)
    requires
        0 <= k <= voters.len(),
    ensures
        count_value(tally(voters.take(k), votes, weights), id) <= count_value(tally(voters, votes, weights), id),
    decreases voters.len(),
{
    if k == voters.len() {
        assert(voters.take(k) =~= voters);
    } else {
        assert(voters.drop_last().take(k) =~= voters.take(k));
        lemma_tally_monotone(voters.drop_last(), votes, weights, k, id);
        lemma_add_vote_value(tally(voters.drop_last(), votes, weights), votes[voters.last()].id, weight_of(weights, voters.last()), id);
    }
}

/// The best entry of a tally is one of its entries, or choice 0 with no votes.
proof fn lemma_best_is_entry(counts: Seq<(usize, nat)>)
    ensures
        best(counts) == (0usize, 0nat) || exists|i: int| 0 <= i < counts.len() && counts[i] == best(counts),
        forall|i: int| 0 <= i < counts.len() ==> #[trigger] counts[i].1 <= best(counts).1,
    decreases counts.len(),
{
    if counts.len() > 0 {
        lemma_best_is_entry(counts.drop_last());
        let b = best(counts.drop_last());
        if b != (0usize, 0nat) {
            let i = choose|i: int| 0 <= i < counts.drop_last().len() && counts.drop_last()[i] == b;
            assert(counts[i] == b);
        }
        assert(counts[counts.len() - 1] == counts.last());
        assert forall|i: int| 0 <= i < counts.len() implies #[trigger] counts[i].1 <= best(counts).1 by {
            if i < counts.len() - 1 {
                assert(counts.drop_last()[i].1 <= b.1);
            }
        }
    }
}

/// A vector of counts holds exactly the tally `t`.
pub open spec fn holds_tally(counts: Seq<(usize, u32)>, t: Seq<(usize, nat)>) -> bool {
    &&& counts.len() == t.len()
    &&& forall|i: int| 0 <= i < counts.len() ==> #[trigger] counts[i].0 == t[i].0 && counts[i].1 as nat == t[i].1
}

/// The tallied counts of `voters` recorded so far, in a vector.
fn tally_exec(voters: &EntityMap<VoteChoice>, weights: &EntityMap<u32>) -> (counts: Vec<(usize, u32)>)
    requires
        voters.wf(),
        weights.wf(),
        tally_fits(voters.key_seq(), voters@, weights@),
    ensures
        holds_tally(counts@, tally(voters.key_seq(), voters@, weights@)),
{
    let ghost keys = voters.key_seq();
    let mut counts: Vec<(usize, u32)> = Vec::new();
    let mut i: usize = 0;
    while i < voters.entries.len()
        invariant
            voters.wf(),
            weights.wf(),
            keys == voters.key_seq(),
            keys.len() == voters.entries@.len(),
            tally_fits(keys, voters@, weights@),
            i <= keys.len(),
            holds_tally(counts@, tally(keys.take(i as int), voters@, weights@)),
        decreases keys.len() - i,
    {
        let player = voters.entries[i].0;
        let id = voters.entries[i].1.id;
        let w: u32 = match weights.get(player) {
            Some(w) => *w,
            None => 1,
        };
        let ghost before = tally(keys.take(i as int), voters@, weights@);
        proof {
            assert(keys.take(i + 1).drop_last() =~= keys.take(i as int));
            assert(keys[i as int] == player);
            crate::entity::lemma_key_index_unique(voters.entries@, i as int);
            assert(voters@[player].id == id);
            lemma_tally_monotone(keys, voters@, weights@, i + 1, id);
            lemma_add_vote_value(before, id, w as nat, id);
            assert(count_value(tally(keys, voters@, weights@), id) <= u32::MAX);
        }
        let mut j: usize = 0;
        let mut found = false;
        while j < counts.len() && !found
            invariant
                j <= counts@.len(),
                counts@.len() == before.len(),
                forall|t: int| 0 <= t < j ==> #[trigger] counts@[t].0 != id,
                found ==> j < counts@.len() && counts@[j as int].0 == id,
            decreases counts@.len() - j + if found { 0int } else { 1int },
        {
            if counts[j].0 == id {
                found = true;
            } else {
                j = j + 1;
            }
        }
        let ghost after = add_vote(before, id, w as nat);
        let ghost c0 = counts@;
        if found {
            proof {
                lemma_first_index_is_count_index(counts@, before, id, j as int);
                assert(count_value(before, id) == before[j as int].1);
            }
            let c = counts[j].1;
            counts.set(j, (id, c + w));
            proof {
                assert(after == before.update(j as int, (id, before[j as int].1 + w as nat)));
                assert forall|t: int| 0 <= t < counts@.len() implies #[trigger] counts@[t].0 == after[t].0
                    && counts@[t].1 as nat == after[t].1 by {
                    if t != j {
                        assert(c0[t].0 == before[t].0);
                    }
                }
            }
        } else {
            proof {
                lemma_absent_is_no_count_index(counts@, before, id);
            }
            counts.push((id, w));
            proof {
                assert(after == before.push((id, w as nat)));
                assert forall|t: int| 0 <= t < counts@.len() implies #[trigger] counts@[t].0 == after[t].0
                    && counts@[t].1 as nat == after[t].1 by {
                    if t < c0.len() {
                        assert(c0[t].0 == before[t].0);
                    }
                }
            }
        }
        assert(holds_tally(counts@, after));
        assert(after == tally(keys.take(i + 1), voters@, weights@));
        i = i + 1;
    }
    assert(keys.take(keys.len() as int) =~= keys);
    counts
}

/// The first position holding `id` is the tally's position of `id`.
proof fn lemma_first_index_is_count_index(v: Seq<(usize, u32)>, s: Seq<(usize, nat)>, id: usize, j: int)
    requires
        v.len() == s.len(),
        forall|t: int| 0 <= t < v.len() ==> #[trigger] v[t].0 == s[t].0,
        0 <= j < v.len(),
        v[j].0 == id,
        forall|t: int| 0 <= t < j ==> #[trigger] v[t].0 != id,
    ensures
        count_index(s, id) == Some(j),
    decreases s.len(),
{
    if j < s.len() - 1 {
        lemma_first_index_is_count_index(v.drop_last(), s.drop_last(), id, j);
    } else {
        lemma_absent_is_no_count_index(v.drop_last(), s.drop_last(), id);
    }
}

/// When no position holds `id`, the tally has no position for it.
proof fn lemma_absent_is_no_count_index(v: Seq<(usize, u32)>, s: Seq<(usize, nat)>, id: usize)
    requires
        v.len() == s.len(),
        forall|t: int| 0 <= t < v.len() ==> #[trigger] v[t].0 == s[t].0,
        forall|t: int| 0 <= t < v.len() ==> #[trigger] v[t].0 != id,
    ensures
        count_index(s, id) is None,
    decreases s.len(),
{
    if s.len() > 0 {
        lemma_absent_is_no_count_index(v.drop_last(), s.drop_last(), id);
        assert(v[v.len() - 1].0 != id);
    }
}

/// The total weight of a prefix never exceeds the total.
proof fn lemma_total_weight_prefix(voters: Seq<EntityId>, weights: Map<EntityId, u32>, k: int)
    requires
        0 <= k <= voters.len(),
    ensures
        total_weight(voters.take(k), weights) <= total_weight(voters, weights),
    decreases voters.len(),
{
    if k == voters.len() {
        assert(voters.take(k) =~= voters);
    } else {
        assert(voters.drop_last().take(k) =~= voters.take(k));
        lemma_total_weight_prefix(voters.drop_last(), weights, k);
    }
}

/// The weight of a player: 1 unless one is recorded.
fn weight_exec(weights: &EntityMap<u32>, p: EntityId) -> (w: u32)
    requires
        weights.wf(),
    ensures
        w as nat == weight_of(weights@, p),
{
    match weights.get(p) {
        Some(w) => *w,
        None => 1,
    }
}

impl PoliticsSystem {
    /// Tallies the votes: each player's vote counts with its weight; the
    /// winner is the choice with the most votes (of equal counts, the one
    /// first voted for). `None` without votes, or when the winner is not a
    /// choice of the active vote.
    pub fn tally_votes(&self) -> (r: Option<(VoteChoice, u32)>)
        requires
            self.wf(),
            tally_fits(self.votes_cast.key_seq(), self.votes_cast@, self.vote_weights@),
        ensures
            r == tally_result(self.active_vote, self.votes_cast.key_seq(), self.votes_cast@, self.vote_weights@),
    {
        if self.votes_cast.entries.len() == 0 {
            return None;
        }
        let counts = tally_exec(&self.votes_cast, &self.vote_weights);
        let ghost t = tally(self.votes_cast.key_seq(), self.votes_cast@, self.vote_weights@);
        let mut max_votes: u32 = 0;
        let mut winner: usize = 0;
        let mut k: usize = 0;
        while k < counts.len()
            invariant
                holds_tally(counts@, t),
                k <= counts@.len(),
                (winner, max_votes as nat) == best(t.take(k as int)),
            decreases counts@.len() - k,
        {
            proof {
                assert(t.take(k + 1).drop_last() =~= t.take(k as int));
            }
            proof {
                assert(t[k as int] == (counts@[k as int].0, counts@[k as int].1 as nat));
                assert(t.take(k + 1).last() == t[k as int]);
            }
            if counts[k].1 > max_votes {
                max_votes = counts[k].1;
                winner = counts[k].0;
            }
            k = k + 1;
        }
        assert(t.take(t.len() as int) =~= t);
        match &self.active_vote {
            Some(v) => {
                let mut c: usize = 0;
                while c < v.choices.len()
                    invariant
                        c <= v.choices@.len(),
                        choice_with_id(v.choices@.take(c as int), winner) is None,
                        self.active_vote == Some(*v),
                        self.votes_cast.entries@.len() > 0,
                        t == tally(self.votes_cast.key_seq(), self.votes_cast@, self.vote_weights@),
                        best(t) == (winner, max_votes as nat),
                    decreases v.choices@.len() - c,
                {
                    proof {
                        assert(v.choices@.take(c + 1).drop_last() =~= v.choices@.take(c as int));
                    }
                    if v.choices[c].id == winner {
                        proof {
                            lemma_choice_prefix(v.choices@, winner, c + 1);
                            assert(choice_with_id(v.choices@, winner) == Some(v.choices@[c as int]));
                            assert(self.votes_cast.key_seq().len() > 0);
                            assert(best(t) == (winner, max_votes as nat));
                        }
                        let chosen = v.choices[c].clone();
                        return Some((chosen, max_votes));
                    }
                    c = c + 1;
                }
                assert(v.choices@.take(v.choices@.len() as int) =~= v.choices@);
                None
            },
            None => None,
        }
    }

    /// Whether the active vote is decided: when every player must vote, once
    /// all eligible players have voted; otherwise once the winning choice has
    /// more than half of the eligible players' total weight.
    pub fn is_vote_decisive(&self) -> (b: bool)
        requires
            self.wf(),
            counting_fits(self.active_vote, self.votes_cast.key_seq(), self.votes_cast@, self.vote_weights@),
        ensures
            b == decisive(self.active_vote, self.votes_cast.key_seq(), self.votes_cast@, self.vote_weights@),
    {
        match &self.active_vote {
            None => false,
            Some(v) => {
                if v.requires_all_players {
                    let mut i: usize = 0;
                    while i < v.eligible_voters.len()
                        invariant
                            self.wf(),
                            self.active_vote == Some(*v),
                            v.requires_all_players,
                            i <= v.eligible_voters@.len(),
                            forall|j: int| 0 <= j < i ==> self.votes_cast@.dom().contains(#[trigger] v.eligible_voters@[j]),
                        decreases v.eligible_voters@.len() - i,
                    {
                        if !self.votes_cast.contains_key(v.eligible_voters[i]) {
                            assert(!self.votes_cast@.dom().contains(v.eligible_voters@[i as int]));
                            return false;
                        }
                        i = i + 1;
                    }
                    true
                } else {
                    match self.tally_votes() {
                        Some((_, count)) => {
                            let ghost voters = v.eligible_voters@;
                            let mut total: u32 = 0;
                            let mut i: usize = 0;
                            while i < v.eligible_voters.len()
                                invariant
                                    self.wf(),
                                    voters == v.eligible_voters@,
                                    total_weight(voters, self.vote_weights@) <= u32::MAX,
                                    i <= voters.len(),
                                    total as nat == total_weight(voters.take(i as int), self.vote_weights@),
                                decreases voters.len() - i,
                            {
                                proof {
                                    assert(voters.take(i + 1).drop_last() =~= voters.take(i as int));
                                    lemma_total_weight_prefix(voters, self.vote_weights@, i + 1);
                                }
                                total = total + weight_exec(&self.vote_weights, v.eligible_voters[i]);
                                i = i + 1;
                            }
                            assert(voters.take(voters.len() as int) =~= voters);
                            count > total / 2
                        },
                        None => false,
                    }
                }
            },
        }
    }
}

/// The choice found in a prefix is the first choice of the whole.
proof fn lemma_choice_prefix(s: Seq<VoteChoice>, id: usize, k: int)
    requires
        0 <= k <= s.len(),
        choice_with_id(s.take(k), id) is Some,
    ensures
        choice_with_id(s, id) == choice_with_id(s.take(k), id),
    decreases s.len(),
{
    if k == s.len() {
        assert(s.take(k) =~= s);
    } else {
        assert(s.drop_last().take(k) =~= s.take(k));
        lemma_choice_prefix(s.drop_last(), id, k);
    }
}

/// The tally's winner has the most votes: no choice has more.
pub proof fn law_winner_has_most_votes(voters: Seq<EntityId>, votes: Map<EntityId, VoteChoice>, weights: Map<EntityId, u32>, id: usize)
    ensures
        count_value(tally(voters, votes, weights), id) <= best(tally(voters, votes, weights)).1,
{
    let t = tally(voters, votes, weights);
    lemma_best_is_entry(t);
    if count_index(t, id) is Some {
        lemma_count_index_found(t, id);
    }
}

/// A player becomes the monarch.
#[derive(Clone, Copy, PartialEq, Eq, Structural, Debug)]
pub struct MonarchChangedEvent {
    pub new_monarch: EntityId,
    pub previous_monarch: Option<EntityId>,
    pub source: Option<EntityId>,
}

/// A vote starts.
pub struct VoteStartedEvent {
    pub vote: Vote,
}

/// A player casts a vote.
pub struct VoteCastEvent {
    pub vote_id: u128,
    pub player: EntityId,
    pub choice: VoteChoice,
}

/// A vote is decided.
pub struct VoteCompletedEvent {
    pub vote_id: u128,
    pub winning_choice: VoteChoice,
    pub vote_count: u32,
}

/// A deal is proposed.
pub struct DealProposedEvent {
    pub deal: Deal,
}

/// A deal is accepted or rejected.
#[derive(Clone, Copy, PartialEq, Eq, Structural, Debug)]
pub struct DealResponseEvent {
    pub deal_id: u128,
    pub accepted: bool,
    pub responder: EntityId,
}

/// A deal is broken.
pub struct DealBrokenEvent {
    pub deal_id: u128,
    pub breaker: EntityId,
    pub reason: String,
}

/// The identifier of the active vote, if any.
pub open spec fn active_id(active: Option<Vote>) -> Option<u128> {
    match active {
        Some(v) => Some(v.id),
        None => None,
    }
}

/// The voters in order after the votes `events` for vote `id` (a new voter goes last).
pub open spec fn cast_keys(keys: Seq<EntityId>, id: Option<u128>, events: Seq<VoteCastEvent>) -> Seq<EntityId>
    decreases events.len(),
{
    if events.len() == 0 {
        keys
    } else {
        let prev = cast_keys(keys, id, events.drop_last());
        let e = events.last();
        if id == Some(e.vote_id) && !prev.contains(e.player) {
            prev.push(e.player)
        } else {
            prev
        }
    }
}

/// Each voter's choice after the votes `events` for vote `id` (a later vote replaces an earlier one).
pub open spec fn cast_votes(votes: Map<EntityId, VoteChoice>, id: Option<u128>, events: Seq<VoteCastEvent>) -> Map<EntityId, VoteChoice>
    decreases events.len(),
{
    if events.len() == 0 {
        votes
    } else {
        let prev = cast_votes(votes, id, events.drop_last());
        let e = events.last();
        if id == Some(e.vote_id) {
            prev.insert(e.player, e.choice)
        } else {
            prev
        }
    }
}

/// A weight of 1 for each of `voters`.
pub open spec fn unit_weights(voters: Seq<EntityId>) -> Map<EntityId, u32> {
    Map::new(|p: EntityId| voters.contains(p), |p: EntityId| 1u32)
}

/// Runs the voting: a started vote becomes the active vote (votes cleared,
/// each eligible voter weighing 1; of several, the last started wins); votes
/// cast for the active vote are recorded (a player's later vote replaces the
/// earlier); once the vote is decisive and has a winner, the result is
/// announced and the vote, its votes and weights are cleared.
pub fn voting_system(
    politics: &mut PoliticsSystem,
    started: Vec<VoteStartedEvent>,
    casts: &Vec<VoteCastEvent>,
) -> (done: Option<VoteCompletedEvent>)
    requires
        old(politics).wf(),
        ({
            let active1 = if started@.len() > 0 { Some(started@.last().vote) } else { old(politics).active_vote };
            let keys1 = if started@.len() > 0 { Seq::<EntityId>::empty() } else { old(politics).votes_cast.key_seq() };
            let votes1 = if started@.len() > 0 { Map::<EntityId, VoteChoice>::empty() } else { old(politics).votes_cast@ };
            let weights1 = if started@.len() > 0 { unit_weights(started@.last().vote.eligible_voters@) } else { old(politics).vote_weights@ };
            counting_fits(
                active1,
                cast_keys(keys1, active_id(active1), casts@),
                cast_votes(votes1, active_id(active1), casts@),
                weights1,
            )
        }),
    ensures
        final(politics).wf(),
        ({
            let active1 = if started@.len() > 0 { Some(started@.last().vote) } else { old(politics).active_vote };
            let keys1 = if started@.len() > 0 { Seq::<EntityId>::empty() } else { old(politics).votes_cast.key_seq() };
            let votes1 = if started@.len() > 0 { Map::<EntityId, VoteChoice>::empty() } else { old(politics).votes_cast@ };
            let weights1 = if started@.len() > 0 { unit_weights(started@.last().vote.eligible_voters@) } else { old(politics).vote_weights@ };
            let keys2 = cast_keys(keys1, active_id(active1), casts@);
            let votes2 = cast_votes(votes1, active_id(active1), casts@);
            let result = tally_result(active1, keys2, votes2, weights1);
            if decisive(active1, keys2, votes2, weights1) && result is Some {
                &&& done matches Some(ev) && ev.vote_id == active1->0.id && ev.winning_choice == (result->0).0
                    && ev.vote_count == (result->0).1
                &&& final(politics).active_vote is None
                &&& final(politics).votes_cast@ == Map::<EntityId, VoteChoice>::empty()
                &&& final(politics).vote_weights@ == Map::<EntityId, u32>::empty()
            } else {
                &&& done is None
                &&& final(politics).active_vote == active1
                &&& final(politics).votes_cast.key_seq() == keys2
                &&& final(politics).votes_cast@ == votes2
                &&& final(politics).vote_weights@ == weights1
            }
        }),
        final(politics).monarch == old(politics).monarch,
        final(politics).initiative_holder == old(politics).initiative_holder,
        final(politics).goad_effects == old(politics).goad_effects,
        final(politics).vow_effects == old(politics).vow_effects,
        final(politics).pending_deals == old(politics).pending_deals,
        final(politics).active_deals == old(politics).active_deals,
        final(politics).alliances == old(politics).alliances,
        final(politics).combat_restrictions == old(politics).combat_restrictions,
{
    let ghost st = started@;
    let mut started = started;
    if started.len() > 0 {
        let ghost last = started@.last();
        match started.pop() {
            Some(ev) => {
                politics.active_vote = Some(ev.vote);
            },
            None => {},
        }
        politics.votes_cast.clear();
        politics.vote_weights.clear();
        assert(politics.votes_cast.key_seq() =~= Seq::<EntityId>::empty());
        let ghost pre = *politics;
        match &politics.active_vote {
            Some(v) => {
                let mut i: usize = 0;
                assert(unit_weights(v.eligible_voters@.take(0)) =~= Map::<EntityId, u32>::empty());
                while i < v.eligible_voters.len()
                    invariant
                        *politics == (PoliticsSystem { vote_weights: politics.vote_weights, ..pre }),
                        politics.vote_weights.wf(),
                        i <= v.eligible_voters@.len(),
                        politics.vote_weights@ == unit_weights(v.eligible_voters@.take(i as int)),
                    decreases v.eligible_voters@.len() - i,
                {
                    politics.vote_weights.insert(v.eligible_voters[i], 1);
                    proof {
                        let t0 = v.eligible_voters@.take(i as int);
                        let t1 = v.eligible_voters@.take(i + 1);
                        assert(t1 =~= t0.push(v.eligible_voters@[i as int]));
                        t0.lemma_push_to_set_commute(v.eligible_voters@[i as int]);
                        assert forall|p: EntityId| #[trigger] t1.contains(p) == (t0.contains(p) || p == v.eligible_voters@[i as int]) by {
                            assert(t1.to_set().contains(p) == t1.contains(p));
                            assert(t0.to_set().contains(p) == t0.contains(p));
                        }
                        assert(politics.vote_weights@ =~= unit_weights(t1));
                    }
                    i = i + 1;
                }
                assert(v.eligible_voters@.take(v.eligible_voters@.len() as int) =~= v.eligible_voters@);
            },
            None => {},
        }
    }
    let ghost keys1 = politics.votes_cast.key_seq();
    let ghost votes1 = politics.votes_cast@;
    let ghost active1 = politics.active_vote;
    let ghost weights1 = politics.vote_weights;
    proof {
        if st.len() > 0 {
            assert(active1 == Some(st.last().vote));
            assert(keys1 == Seq::<EntityId>::empty());
            assert(votes1 == Map::<EntityId, VoteChoice>::empty());
            assert(politics.vote_weights@ == unit_weights(st.last().vote.eligible_voters@));
        } else {
            assert(active1 == old(politics).active_vote);
            assert(keys1 == old(politics).votes_cast.key_seq());
        }
    }
    let mut i: usize = 0;
    while i < casts.len()
        invariant
            politics.wf(),
            i <= casts@.len(),
            politics.votes_cast.key_seq() == cast_keys(keys1, active_id(politics.active_vote), casts@.take(i as int)),
            politics.votes_cast@ == cast_votes(votes1, active_id(politics.active_vote), casts@.take(i as int)),
            politics.monarch == old(politics).monarch,
            politics.initiative_holder == old(politics).initiative_holder,
            politics.goad_effects == old(politics).goad_effects,
            politics.vow_effects == old(politics).vow_effects,
            politics.pending_deals == old(politics).pending_deals,
            politics.active_deals == old(politics).active_deals,
            politics.alliances == old(politics).alliances,
            politics.combat_restrictions == old(politics).combat_restrictions,
            politics.active_vote == active1,
            politics.vote_weights == weights1,
        decreases casts@.len() - i,
    {
        proof {
            assert(casts@.take(i + 1).drop_last() =~= casts@.take(i as int));
            crate::entity::lemma_key_seq_contains(politics.votes_cast, casts@[i as int].player);
        }
        let matches_active = match &politics.active_vote {
            Some(v) => v.id == casts[i].vote_id,
            None => false,
        };
        if matches_active {
            let choice = casts[i].choice.clone();
            politics.votes_cast.insert(casts[i].player, choice);
        }
        i = i + 1;
    }
    assert(casts@.take(casts@.len() as int) =~= casts@);
    if politics.is_vote_decisive() {
        match politics.tally_votes() {
            Some((winning_choice, vote_count)) => {
                let vote_id = match &politics.active_vote {
                    Some(v) => v.id,
                    None => 0,
                };
                politics.active_vote = None;
                politics.votes_cast.clear();
                politics.vote_weights.clear();
                Some(VoteCompletedEvent { vote_id, winning_choice, vote_count })
            },
            None => None,
        }
    } else {
        None
    }
}

/// Records each new monarch (the last one wins) and tells whether the
/// monarch draws a card now: at the end of the monarch's own turn.
pub fn monarch_system(
    politics: &mut PoliticsSystem,
    events: &Vec<MonarchChangedEvent>,
    active_player: EntityId,
    current_phase: Phase,
) -> (monarch_draws: bool)
    ensures
        final(politics).monarch == if events@.len() > 0 {
            Some(events@.last().new_monarch)
        } else {
            old(politics).monarch
        },
        *final(politics) == (PoliticsSystem { monarch: final(politics).monarch, ..*old(politics) }),
        monarch_draws == (final(politics).monarch == Some(active_player) && current_phase is Ending),
{
    let mut i: usize = 0;
    while i < events.len()
        invariant
            i <= events@.len(),
            politics.monarch == if i > 0 { Some(events@[i - 1].new_monarch) } else { old(politics).monarch },
            *politics == (PoliticsSystem { monarch: politics.monarch, ..*old(politics) }),
        decreases events@.len() - i,
    {
        politics.monarch = Some(events[i].new_monarch);
        i = i + 1;
    }
    let is_end_phase = match current_phase {
        Phase::Ending(_) => true,
        _ => false,
    };
    match politics.monarch {
        Some(m) => m == active_player && is_end_phase,
        None => false,
    }
}

/// The position of the first deal with identifier `id`.
pub open spec fn deal_position(deals: Seq<Deal>, id: u128) -> Option<int>
    decreases deals.len(),
{
    if deals.len() == 0 {
        None
    } else {
        match deal_position(deals.drop_last(), id) {
            Some(i) => Some(i),
            None => if deals.last().id == id {
                Some(deals.len() - 1)
            } else {
                None
            },
        }
    }
}

/// Pending and active deals after a response on turn `turn`: the answered
/// deal leaves the pending deals and, when accepted, becomes active with
/// status accepted, accepted on that turn.
pub open spec fn respond(deals: (Seq<Deal>, Seq<Deal>), r: DealResponseEvent, turn: u32) -> (Seq<Deal>, Seq<Deal>) {
    match deal_position(deals.0, r.deal_id) {
        Some(i) => (
            deals.0.remove(i),
            if r.accepted {
                deals.1.push(Deal { status: DealStatus::Accepted, accepted_turn: turn, ..deals.0[i] })
            } else {
                deals.1
            },
        ),
        None => deals,
    }
}

/// Pending and active deals after the responses `rs`, in order.
pub open spec fn responses_after(deals: (Seq<Deal>, Seq<Deal>), rs: Seq<DealResponseEvent>, turn: u32) -> (Seq<Deal>, Seq<Deal>)
    decreases rs.len(),
{
    if rs.len() == 0 {
        deals
    } else {
        respond(responses_after(deals, rs.drop_last(), turn), rs.last(), turn)
    }
}

/// Active deals after the breaches `bs`: each broken deal leaves the active deals.
pub open spec fn breaches_after(active: Seq<Deal>, bs: Seq<u128>) -> Seq<Deal>
    decreases bs.len(),
{
    if bs.len() == 0 {
        active
    } else {
        let prev = breaches_after(active, bs.drop_last());
        match deal_position(prev, bs.last()) {
            Some(i) => prev.remove(i),
            None => prev,
        }
    }
}

/// Whether a deal has expired: one lasting `n` turns once more than `n`
/// turns have passed since it was accepted, or one lasting until a player
/// is eliminated once that player is.
pub open spec fn deal_expired(d: Deal, turn: u32, eliminated: Seq<EntityId>) -> bool {
    match d.duration {
        DealDuration::Turns(t) => turn > d.accepted_turn + t,
        DealDuration::UntilEndOfGame => false,
        DealDuration::UntilPlayerEliminated(p) => eliminated.contains(p),
        DealDuration::Custom(_) => false,
    }
}

/// A deal that has not expired.
pub open spec fn in_force(turn: u32, eliminated: Seq<EntityId>) -> spec_fn(Deal) -> bool {
    |d: Deal| !deal_expired(d, turn, eliminated)
}

/// The deals that stay in force.
pub open spec fn unexpired(deals: Seq<Deal>, turn: u32, eliminated: Seq<EntityId>) -> Seq<Deal> {
    deals.filter(in_force(turn, eliminated))
}

/// The position of the first deal with identifier `id`.
fn find_deal(deals: &Vec<Deal>, id: u128) -> (r: Option<usize>)
    ensures
        match r {
            Some(i) => deal_position(deals@, id) == Some(i as int) && i < deals@.len(),
            None => deal_position(deals@, id) is None,
        },
{
    let mut i: usize = 0;
    while i < deals.len()
        invariant
            i <= deals@.len(),
            deal_position(deals@.take(i as int), id) is None,
        decreases deals@.len() - i,
    {
        proof {
            assert(deals@.take(i + 1).drop_last() =~= deals@.take(i as int));
        }
        if deals[i].id == id {
            proof {
                lemma_deal_position_prefix(deals@, id, i + 1);
            }
            return Some(i);
        }
        i = i + 1;
    }
    assert(deals@.take(deals@.len() as int) =~= deals@);
    None
}

/// The position found in a prefix is the position in the whole.
proof fn lemma_deal_position_prefix(s: Seq<Deal>, id: u128, k: int)
    requires
        0 <= k <= s.len(),
        deal_position(s.take(k), id) is Some,
    ensures
        deal_position(s, id) == deal_position(s.take(k), id),
    decreases s.len(),
{
    if k == s.len() {
        assert(s.take(k) =~= s);
    } else {
        assert(s.drop_last().take(k) =~= s.take(k));
        lemma_deal_position_prefix(s.drop_last(), id, k);
    }
}

/// The deals that the proposals carry, in order.
pub open spec fn proposed_deals(s: Seq<DealProposedEvent>) -> Seq<Deal> {
    Seq::new(s.len(), |i: int| s[i].deal)
}

/// The identifiers of the broken deals, in order.
pub open spec fn broken_ids(s: Seq<DealBrokenEvent>) -> Seq<u128> {
    Seq::new(s.len(), |i: int| s[i].deal_id)
}

/// Whether a deal has expired.
fn deal_has_expired(d: &Deal, turn: u32, eliminated: &Vec<EntityId>) -> (b: bool)
    ensures
        b == deal_expired(*d, turn, eliminated@),
{
    match &d.duration {
        DealDuration::Turns(t) => (turn as u64) > (d.accepted_turn as u64) + (*t as u64),
        DealDuration::UntilEndOfGame => false,
        DealDuration::UntilPlayerEliminated(p) => vec_contains(eliminated, *p),
        DealDuration::Custom(_) => false,
    }
}

/// Handles deals: proposed deals join the pending deals; each response
/// takes its deal out of the pending deals and, when accepted, makes it
/// active from this turn; each breach takes its deal out of the active deals; finally the
/// expired active deals are dropped.
pub fn deal_system(
    politics: &mut PoliticsSystem,
    proposed: Vec<DealProposedEvent>,
    responses: &Vec<DealResponseEvent>,
    broken: &Vec<DealBrokenEvent>,
    turn_manager: &TurnManager,
)
    ensures
        ({
            let after = responses_after(
                (old(politics).pending_deals@ + proposed_deals(proposed@), old(politics).active_deals@),
                responses@,
                turn_manager.turn_number,
            );
            &&& final(politics).pending_deals@ == after.0
            &&& final(politics).active_deals@ == unexpired(
                breaches_after(after.1, broken_ids(broken@)),
                turn_manager.turn_number,
                turn_manager.eliminated_players@,
            )
        }),
        *final(politics) == (PoliticsSystem {
            pending_deals: final(politics).pending_deals,
            active_deals: final(politics).active_deals,
            ..*old(politics)
        }),
{
    let ghost props = proposed_deals(proposed@);
    let ghost p0 = old(politics).pending_deals@;
    let mut proposed = proposed;
    let ghost n = props.len();
    while proposed.len() > 0
        invariant
            n == props.len(),
            proposed@.len() <= n,
            proposed_deals(proposed@) == props.skip(n - proposed@.len()),
            politics.pending_deals@ == p0 + props.take(n - proposed@.len()),
            *politics == (PoliticsSystem { pending_deals: politics.pending_deals, ..*old(politics) }),
        decreases proposed@.len(),
    {
        let ghost k = n - proposed@.len();
        let ghost before = proposed@;
        let ev = proposed.remove(0);
        proof {
            assert(proposed_deals(before)[0] == props.skip(k)[0]);
            assert(props[k] == ev.deal);
            assert(props.take(k + 1) =~= props.take(k).push(ev.deal));
            assert(proposed_deals(proposed@) =~= props.skip(k + 1)) by {
                assert forall|t: int| 0 <= t < proposed@.len() implies proposed_deals(proposed@)[t] == props.skip(k + 1)[t] by {
                    assert(proposed@[t] == before[t + 1]);
                    assert(proposed_deals(before)[t + 1] == props.skip(k)[t + 1]);
                }
            }
        }
        politics.pending_deals.push(ev.deal);
    }
    assert(props.take(n as int) =~= props);
    let mut i: usize = 0;
    while i < responses.len()
        invariant
            i <= responses@.len(),
            (politics.pending_deals@, politics.active_deals@) == responses_after(
                (p0 + props, old(politics).active_deals@),
                responses@.take(i as int),
                turn_manager.turn_number,
            ),
            *politics == (PoliticsSystem {
                pending_deals: politics.pending_deals,
                active_deals: politics.active_deals,
                ..*old(politics)
            }),
        decreases responses@.len() - i,
    {
        let r = responses[i];
        proof {
            assert(responses@.take(i + 1).drop_last() =~= responses@.take(i as int));
        }
        match find_deal(&politics.pending_deals, r.deal_id) {
            Some(idx) => {
                let mut deal = politics.pending_deals.remove(idx);
                if r.accepted {
                    deal.status = DealStatus::Accepted;
                    deal.accepted_turn = turn_manager.turn_number;
                    politics.active_deals.push(deal);
                }
            },
            None => {},
        }
        i = i + 1;
    }
    assert(responses@.take(responses@.len() as int) =~= responses@);
    let ghost ids = broken_ids(broken@);
    let ghost a1 = politics.active_deals@;
    let mut j: usize = 0;
    while j < broken.len()
        invariant
            j <= broken@.len(),
            ids == broken_ids(broken@),
            politics.active_deals@ == breaches_after(a1, ids.take(j as int)),
            politics.pending_deals@ == responses_after((p0 + props, old(politics).active_deals@), responses@, turn_manager.turn_number).0,
            *politics == (PoliticsSystem {
                pending_deals: politics.pending_deals,
                active_deals: politics.active_deals,
                ..*old(politics)
            }),
        decreases broken@.len() - j,
    {
        proof {
            assert(ids.take(j + 1).drop_last() =~= ids.take(j as int));
            assert(ids.take(j + 1).last() == broken@[j as int].deal_id);
        }
        match find_deal(&politics.active_deals, broken[j].deal_id) {
            Some(idx) => {
                let _deal = politics.active_deals.remove(idx);
            },
            None => {},
        }
        j = j + 1;
    }
    assert(ids.take(ids.len() as int) =~= ids);
    let ghost a2 = politics.active_deals@;
    let ghost turn = turn_manager.turn_number;
    let ghost elim = turn_manager.eliminated_players@;
    let ghost keep = in_force(turn, elim);
    let mut kept: Vec<Deal> = Vec::new();
    let ghost m = a2.len();
    let ghost pre = *politics;
    while politics.active_deals.len() > 0
        invariant
            *politics == (PoliticsSystem { active_deals: politics.active_deals, ..pre }),
            m == a2.len(),
            politics.active_deals@.len() <= m,
            politics.active_deals@ == a2.skip(m - politics.active_deals@.len()),
            kept@ == a2.take(m - politics.active_deals@.len()).filter(keep),
            keep == in_force(turn, elim),
            turn == turn_manager.turn_number,
            elim == turn_manager.eliminated_players@,
        decreases politics.active_deals@.len(),
    {
        let ghost k = m - politics.active_deals@.len();
        let d = politics.active_deals.remove(0);
        proof {
            assert(a2[k] == d);
            assert(a2.take(k + 1) =~= a2.take(k).push(d));
            a2.take(k).lemma_filter_push(d, keep);
            assert(politics.active_deals@ =~= a2.skip(k + 1));
        }
        if !deal_has_expired(&d, turn_manager.turn_number, &turn_manager.eliminated_players) {
            kept.push(d);
        }
    }
    assert(a2.take(m as int) =~= a2);
    politics.active_deals = kept;
}

/// Every deal in `deals` has been accepted.
pub open spec fn all_accepted(deals: Seq<Deal>) -> bool {
    forall|i: int| 0 <= i < deals.len() ==> (#[trigger] deals[i]).status == DealStatus::Accepted
}

/// Responses only add accepted deals to the deals in force.
proof fn lemma_responses_keep_accepted(deals: (Seq<Deal>, Seq<Deal>), rs: Seq<DealResponseEvent>, turn: u32)
    requires
        all_accepted(deals.1),
    ensures
        all_accepted(responses_after(deals, rs, turn).1),
    decreases rs.len(),
{
    if rs.len() > 0 {
        lemma_responses_keep_accepted(deals, rs.drop_last(), turn);
        let prev = responses_after(deals, rs.drop_last(), turn);
        let next = respond(prev, rs.last(), turn);
        assert forall|i: int| 0 <= i < next.1.len() implies (#[trigger] next.1[i]).status == DealStatus::Accepted by {
            if i < prev.1.len() {
                assert(prev.1[i].status == DealStatus::Accepted);
            }
        }
    }
}

/// Breaches only take deals out of the deals in force.
proof fn lemma_breaches_keep_accepted(active: Seq<Deal>, ids: Seq<u128>)
    requires
        all_accepted(active),
    ensures
        all_accepted(breaches_after(active, ids)),
    decreases ids.len(),
{
    if ids.len() > 0 {
        lemma_breaches_keep_accepted(active, ids.drop_last());
        let prev = breaches_after(active, ids.drop_last());
        match deal_position(prev, ids.last()) {
            Some(i) => {
                lemma_deal_position_found(prev, ids.last());
                let r = prev.remove(i);
                assert forall|j: int| 0 <= j < r.len() implies (#[trigger] r[j]).status == DealStatus::Accepted by {
                    if j < i {
                        assert(r[j] == prev[j]);
                    } else {
                        assert(r[j] == prev[j + 1]);
                    }
                }
            },
            None => {},
        }
    }
}

/// A found position lies in range.
proof fn lemma_deal_position_found(s: Seq<Deal>, id: u128)
    ensures
        deal_position(s, id) matches Some(i) ==> 0 <= i < s.len(),
    decreases s.len(),
{
    if s.len() > 0 {
        lemma_deal_position_found(s.drop_last(), id);
    }
}

/// Every deal in force has been accepted: if the deals in force were all
/// accepted, then after proposals, responses, breaches and expiry they
/// still all are.
pub proof fn law_active_deals_are_accepted(
    pending: Seq<Deal>,
    active: Seq<Deal>,
    responses: Seq<DealResponseEvent>,
    broken: Seq<u128>,
    turn: u32,
    eliminated: Seq<EntityId>,
)
    requires
        all_accepted(active),
    ensures
        all_accepted(unexpired(breaches_after(responses_after((pending, active), responses, turn).1, broken), turn, eliminated)),
{
    broadcast use vstd::seq_lib::group_filter_ensures;
    let a1 = responses_after((pending, active), responses, turn).1;
    lemma_responses_keep_accepted((pending, active), responses, turn);
    lemma_breaches_keep_accepted(a1, broken);
    let a2 = breaches_after(a1, broken);
    let f = unexpired(a2, turn, eliminated);
    assert forall|i: int| 0 <= i < f.len() implies (#[trigger] f[i]).status == DealStatus::Accepted by {
        assert(a2.filter(in_force(turn, eliminated)).contains(f[i]));
        a2.lemma_filter_contains_rev(in_force(turn, eliminated), f[i]);
        let j = choose|j: int| 0 <= j < a2.len() && a2[j] == f[i];
        assert(a2[j].status == DealStatus::Accepted);
    }
}

/// What `deal_position` finds: the first deal with the identifier, or none
/// when no deal has it.
proof fn lemma_deal_position_spec(s: Seq<Deal>, id: u128)
    ensures
        deal_position(s, id) is None <==> forall|j: int| 0 <= j < s.len() ==> (#[trigger] s[j]).id != id,
        deal_position(s, id) matches Some(i) ==> 0 <= i < s.len() && s[i].id == id,
    decreases s.len(),
{
    if s.len() > 0 {
        lemma_deal_position_spec(s.drop_last(), id);
        if deal_position(s.drop_last(), id) is None {
            assert forall|j: int| 0 <= j < s.len() - 1 implies (#[trigger] s[j]).id != id by {
                assert(s.drop_last()[j] == s[j]);
            }
        } else {
            let i = deal_position(s.drop_last(), id)->0;
            assert(s.drop_last()[i] == s[i]);
        }
    }
}

/// Responses that name no pending deal change nothing: when no pending deal
/// carries the identifier of any response, the pending and active deals
/// stay as they are.
pub proof fn law_unanswered_deals_stay(pending: Seq<Deal>, active: Seq<Deal>, rs: Seq<DealResponseEvent>, turn: u32)
    requires
        forall|k: int, j: int| 0 <= k < rs.len() && 0 <= j < pending.len() ==> #[trigger] pending[j].id != #[trigger] rs[k].deal_id,
    ensures
        responses_after((pending, active), rs, turn) == (pending, active),
    decreases rs.len(),
{
    if rs.len() > 0 {
        assert forall|k: int, j: int| 0 <= k < rs.drop_last().len() && 0 <= j < pending.len() implies #[trigger] pending[j].id
            != #[trigger] rs.drop_last()[k].deal_id by {
            assert(rs.drop_last()[k] == rs[k]);
        }
        law_unanswered_deals_stay(pending, active, rs.drop_last(), turn);
        lemma_deal_position_spec(pending, rs.last().deal_id);
        assert forall|j: int| 0 <= j < pending.len() implies (#[trigger] pending[j]).id != rs.last().deal_id by {
            assert(pending[j].id != rs[rs.len() - 1].deal_id);
        }
    }
}

/// Responses move deals out of the pending deals and add only accepted
/// ones to the deals in force: the deals in force before stay in front, each
/// added deal is accepted on this turn and was pending, and every deal added
/// or dropped leaves the pending deals.
pub proof fn law_responses_move_pending_deals(pending: Seq<Deal>, active: Seq<Deal>, rs: Seq<DealResponseEvent>, turn: u32)
    ensures
        ({
            let after = responses_after((pending, active), rs, turn);
            &&& after.1.len() >= active.len()
            &&& after.1.take(active.len() as int) == active
            &&& after.0.len() + (after.1.len() - active.len()) <= pending.len()
            &&& forall|x: Deal| after.0.contains(x) ==> pending.contains(x)
            &&& forall|i: int| active.len() <= i < after.1.len() ==> (#[trigger] after.1[i]).status == DealStatus::Accepted
                && after.1[i].accepted_turn == turn && exists|j: int| 0 <= j < pending.len() && pending[j].id == after.1[i].id
        }),
    decreases rs.len(),
{
    if rs.len() > 0 {
        law_responses_move_pending_deals(pending, active, rs.drop_last(), turn);
        let prev = responses_after((pending, active), rs.drop_last(), turn);
        let r = rs.last();
        lemma_deal_position_spec(prev.0, r.deal_id);
        match deal_position(prev.0, r.deal_id) {
            Some(i) => {
                let p2 = prev.0.remove(i);
                assert forall|x: Deal| p2.contains(x) implies pending.contains(x) by {
                    let t = choose|t: int| 0 <= t < p2.len() && p2[t] == x;
                    if t < i {
                        assert(prev.0[t] == x);
                    } else {
                        assert(prev.0[t + 1] == x);
                    }
                    assert(prev.0.contains(x));
                }
                assert(prev.0.contains(prev.0[i]));
                assert(pending.contains(prev.0[i]));
                let j0 = choose|j: int| 0 <= j < pending.len() && pending[j] == prev.0[i];
                if r.accepted {
                    let a2 = prev.1.push(Deal { status: DealStatus::Accepted, accepted_turn: turn, ..prev.0[i] });
                    assert(a2.take(active.len() as int) =~= prev.1.take(active.len() as int));
                    assert forall|k: int| active.len() <= k < a2.len() implies (#[trigger] a2[k]).status == DealStatus::Accepted
                        && a2[k].accepted_turn == turn && exists|j: int| 0 <= j < pending.len() && pending[j].id == a2[k].id by {
                        if k < prev.1.len() {
                            assert(a2[k] == prev.1[k]);
                        } else {
                            assert(pending[j0].id == a2[k].id);
                        }
                    }
                }
            },
            None => {},
        }
    }
}

/// A breach takes the broken deal out of the deals in force: when the deals
/// in force have distinct identifiers, after the breaches `bs` no deal in
/// force carries a broken identifier, and every deal left was in force before.
pub proof fn law_breaches_remove_broken_deals(active: Seq<Deal>, bs: Seq<u128>)
    requires
        forall|i: int, j: int| 0 <= i < j < active.len() ==> (#[trigger] active[i]).id != (#[trigger] active[j]).id,
    ensures
        ({
            let after = breaches_after(active, bs);
            &&& forall|i: int, j: int| 0 <= i < j < after.len() ==> (#[trigger] after[i]).id != (#[trigger] after[j]).id
            &&& forall|x: Deal| after.contains(x) ==> active.contains(x)
            &&& forall|k: int, i: int| 0 <= k < bs.len() && 0 <= i < after.len() ==> (#[trigger] after[i]).id != #[trigger] bs[k]
        }),
    decreases bs.len(),
{
    if bs.len() > 0 {
        law_breaches_remove_broken_deals(active, bs.drop_last());
        let prev = breaches_after(active, bs.drop_last());
        let b = bs.last();
        lemma_deal_position_spec(prev, b);
        let after = breaches_after(active, bs);
        match deal_position(prev, b) {
            Some(i) => {
                assert forall|t: int| 0 <= t < after.len() implies after[t] == prev[if t < i { t } else { t + 1 }] by {}
                assert forall|x: Deal| after.contains(x) implies active.contains(x) by {
                    let t = choose|t: int| 0 <= t < after.len() && after[t] == x;
                    let u = if t < i { t } else { t + 1 };
                    assert(prev[u] == x);
                    assert(prev.contains(x));
                }
                assert forall|p: int, q: int| 0 <= p < q < after.len() implies (#[trigger] after[p]).id != (#[trigger] after[q]).id by {
                    let pu = if p < i { p } else { p + 1 };
                    let qu = if q < i { q } else { q + 1 };
                    assert(after[p] == prev[pu]);
                    assert(after[q] == prev[qu]);
                }
                assert forall|k: int, t: int| 0 <= k < bs.len() && 0 <= t < after.len() implies (#[trigger] after[t]).id
                    != #[trigger] bs[k] by {
                    let u = if t < i { t } else { t + 1 };
                    assert(after[t] == prev[u]);
                    if k < bs.len() - 1 {
                        assert(bs.drop_last()[k] == bs[k]);
                    } else {
                        assert(prev[i].id == b);
                        if u < i {
                            assert(prev[u].id != prev[i].id);
                        } else {
                            assert(prev[i].id != prev[u].id);
                        }
                    }
                }
            },
            None => {
                assert forall|k: int, t: int| 0 <= k < bs.len() && 0 <= t < after.len() implies (#[trigger] after[t]).id
                    != #[trigger] bs[k] by {
                    if k < bs.len() - 1 {
                        assert(bs.drop_last()[k] == bs[k]);
                    } else {
                        assert(prev[t].id != b);
                    }
                }
            },
        }
    }
}

/// Expiry drops exactly the expired deals: a deal stays in force exactly
/// when it was in force before and has not expired.
pub proof fn law_expired_deals_are_dropped(deals: Seq<Deal>, turn: u32, eliminated: Seq<EntityId>, d: Deal)
    ensures
        unexpired(deals, turn, eliminated).contains(d) <==> (deals.contains(d) && !deal_expired(d, turn, eliminated)),
{
    broadcast use vstd::seq_lib::group_filter_ensures;
    if deals.contains(d) && !deal_expired(d, turn, eliminated) {
        let j = choose|j: int| 0 <= j < deals.len() && deals[j] == d;
        deals.lemma_filter_contains(in_force(turn, eliminated), j);
    }
    if unexpired(deals, turn, eliminated).contains(d) {
        deals.lemma_filter_contains_rev(in_force(turn, eliminated), d);
        let f = deals.filter(in_force(turn, eliminated));
        let t = choose|t: int| 0 <= t < f.len() && f[t] == d;
        deals.lemma_filter_pred(in_force(turn, eliminated), t);
    }
}

/// A creature is goaded.
#[derive(Clone, Copy, PartialEq, Eq, Structural, Debug)]
pub struct GoadEvent {
    /// The goaded creature.
    pub target: EntityId,
    /// The player who goads it.
    pub source: EntityId,
    /// How many turns it lasts.
    pub duration: u32,
}

/// A combat restriction is put on a creature.
#[derive(Clone, Copy, PartialEq, Eq, Structural, Debug)]
pub struct ApplyCombatRestrictionEvent {
    pub target: EntityId,
    pub restriction: CombatRestriction,
    pub source: Option<EntityId>,
    pub duration: Option<u32>,
}

/// A creature's combat restriction (or all of them, with `None`) is lifted.
#[derive(Clone, Copy, PartialEq, Eq, Structural, Debug)]
pub struct RemoveCombatRestrictionEvent {
    pub target: EntityId,
    pub restriction: Option<CombatRestriction>,
}

/// Whether `list` holds `r`.
fn has_restriction(list: &Vec<CombatRestriction>, r: CombatRestriction) -> (b: bool)
    ensures
        b == list@.contains(r),
{
    let mut i: usize = 0;
    while i < list.len()
        invariant
            i <= list@.len(),
            forall|j: int| 0 <= j < i ==> list@[j] != r,
        decreases list@.len() - i,
    {
        if list[i] == r {
            return true;
        }
        i = i + 1;
    }
    false
}

/// Adds `r` to the restrictions of `key` unless it is there (starting a
/// list when there is none).
fn add_restriction(m: &mut EntityMap<Vec<CombatRestriction>>, key: EntityId, r: CombatRestriction)
    requires
        old(m).wf(),
    ensures
        final(m).wf(),
        vec_lists(final(m)@) == vec_lists(old(m)@).insert(key, add_unique(list_or_empty(vec_lists(old(m)@), key), r)),
{
    let present = match m.get(key) {
        Some(list) => has_restriction(list, r),
        None => false,
    };
    if present {
        assert(vec_lists(m@) =~= vec_lists(old(m)@).insert(key, add_unique(list_or_empty(vec_lists(old(m)@), key), r)));
    } else {
        m.push_to(key, r);
        proof {
            lemma_push_to_lists(old(m)@, m@, key, r);
        }
    }
}

/// The restrictions after the applications `events`: each adds its
/// restriction to the creature's list unless it is there.
pub open spec fn restrictions_applied(
    r: Map<EntityId, Seq<CombatRestriction>>,
    events: Seq<ApplyCombatRestrictionEvent>,
) -> Map<EntityId, Seq<CombatRestriction>>
    decreases events.len(),
{
    if events.len() == 0 {
        r
    } else {
        let prev = restrictions_applied(r, events.drop_last());
        let e = events.last();
        prev.insert(e.target, add_unique(list_or_empty(prev, e.target), e.restriction))
    }
}

/// The restrictions after the removals `events`: a named restriction leaves
/// the creature's list (the creature leaves the map when none is left); no
/// name lifts them all.
pub open spec fn restrictions_removed(
    r: Map<EntityId, Seq<CombatRestriction>>,
    events: Seq<RemoveCombatRestrictionEvent>,
) -> Map<EntityId, Seq<CombatRestriction>>
    decreases events.len(),
{
    if events.len() == 0 {
        r
    } else {
        let prev = restrictions_removed(r, events.drop_last());
        let e = events.last();
        match e.restriction {
            Some(x) => if prev.dom().contains(e.target) {
                let f = prev[e.target].filter(|y: CombatRestriction| y != x);
                if f.len() == 0 {
                    prev.remove(e.target)
                } else {
                    prev.insert(e.target, f)
                }
            } else {
                prev
            },
            None => prev.remove(e.target),
        }
    }
}

/// `list` without `x`, keeping the order of the rest.
fn without_restriction(list: Vec<CombatRestriction>, x: CombatRestriction) -> (r: Vec<CombatRestriction>)
    ensures
        r@ == list@.filter(|y: CombatRestriction| y != x),
{
    let ghost pred = |y: CombatRestriction| y != x;
    let mut kept: Vec<CombatRestriction> = Vec::new();
    let mut i: usize = 0;
    while i < list.len()
        invariant
            pred == (|y: CombatRestriction| y != x),
            i <= list@.len(),
            kept@ == list@.take(i as int).filter(pred),
        decreases list@.len() - i,
    {
        let y = list[i];
        proof {
            assert(list@.take(i + 1) =~= list@.take(i as int).push(y));
            list@.take(i as int).lemma_filter_push(y, pred);
        }
        if y != x {
            kept.push(y);
        }
        i = i + 1;
    }
    assert(list@.take(list@.len() as int) =~= list@);
    kept
}

/// Applies and lifts combat restrictions: each application adds its
/// restriction to the creature (once); each removal lifts the named
/// restriction, or all of the creature's restrictions, and a creature left
/// without restrictions leaves the map.
pub fn manage_combat_restrictions(
    politics: &mut PoliticsSystem,
    apply_events: &Vec<ApplyCombatRestrictionEvent>,
    remove_events: &Vec<RemoveCombatRestrictionEvent>,
)
    requires
        old(politics).combat_restrictions.wf(),
    ensures
        final(politics).combat_restrictions.wf(),
        vec_lists(final(politics).combat_restrictions@) == restrictions_removed(
            restrictions_applied(vec_lists(old(politics).combat_restrictions@), apply_events@),
            remove_events@,
        ),
        *final(politics) == (PoliticsSystem { combat_restrictions: final(politics).combat_restrictions, ..*old(politics) }),
{
    let ghost r0 = vec_lists(old(politics).combat_restrictions@);
    let mut i: usize = 0;
    while i < apply_events.len()
        invariant
            politics.combat_restrictions.wf(),
            i <= apply_events@.len(),
            vec_lists(politics.combat_restrictions@) == restrictions_applied(r0, apply_events@.take(i as int)),
            *politics == (PoliticsSystem { combat_restrictions: politics.combat_restrictions, ..*old(politics) }),
        decreases apply_events@.len() - i,
    {
        let e = apply_events[i];
        proof {
            assert(apply_events@.take(i + 1).drop_last() =~= apply_events@.take(i as int));
        }
        add_restriction(&mut politics.combat_restrictions, e.target, e.restriction);
        i = i + 1;
    }
    assert(apply_events@.take(apply_events@.len() as int) =~= apply_events@);
    let ghost r1 = vec_lists(politics.combat_restrictions@);
    let mut j: usize = 0;
    while j < remove_events.len()
        invariant
            politics.combat_restrictions.wf(),
            j <= remove_events@.len(),
            vec_lists(politics.combat_restrictions@) == restrictions_removed(r1, remove_events@.take(j as int)),
            *politics == (PoliticsSystem { combat_restrictions: politics.combat_restrictions, ..*old(politics) }),
        decreases remove_events@.len() - j,
    {
        let e = remove_events[j];
        proof {
            assert(remove_events@.take(j + 1).drop_last() =~= remove_events@.take(j as int));
        }
        let ghost before = vec_lists(politics.combat_restrictions@);
        match e.restriction {
            Some(x) => {
                match politics.combat_restrictions.remove(e.target) {
                    Some(list) => {
                        let f = without_restriction(list, x);
                        if f.len() > 0 {
                            politics.combat_restrictions.insert(e.target, f);
                            assert(vec_lists(politics.combat_restrictions@) =~= before.insert(
                                e.target,
                                before[e.target].filter(|y: CombatRestriction| y != x),
                            ));
                        } else {
                            assert(vec_lists(politics.combat_restrictions@) =~= before.remove(e.target));
                        }
                    },
                    None => {
                        assert(vec_lists(politics.combat_restrictions@) =~= before);
                    },
                }
            },
            None => {
                let _ = politics.combat_restrictions.remove(e.target);
                assert(vec_lists(politics.combat_restrictions@) =~= before.remove(e.target));
            },
        }
        j = j + 1;
    }
    assert(remove_events@.take(remove_events@.len() as int) =~= remove_events@);
}

/// A goad effect has run out by turn `turn`.
pub open spec fn goad_expired(g: GoadEffect, turn: u32) -> bool {
    turn >= g.created_at + g.duration
}

/// The goad effects that still last at turn `turn`.
pub open spec fn goads_remaining(s: Seq<GoadEffect>, turn: u32) -> Seq<GoadEffect> {
    s.filter(|g: GoadEffect| !goad_expired(g, turn))
}

/// Some goad effect has run out by turn `turn`.
pub open spec fn any_goad_expired(s: Seq<GoadEffect>, turn: u32) -> bool {
    exists|i: int| 0 <= i < s.len() && #[trigger] goad_expired(s[i], turn)
}

/// The restrictions that goad imposes: attacking, and not attacking the goader.
pub open spec fn is_goad_restriction(r: CombatRestriction) -> bool {
    r is MustAttack || r is CannotAttackPlayer
}

/// The restrictions without those that goad imposes.
pub open spec fn without_goad_restrictions(s: Seq<CombatRestriction>) -> Seq<CombatRestriction> {
    s.filter(|r: CombatRestriction| !is_goad_restriction(r))
}

/// The goad effects after the goads `events` on turn `turn`.
pub open spec fn goads_added(g: Map<EntityId, Seq<GoadEffect>>, events: Seq<GoadEvent>, turn: u32) -> Map<EntityId, Seq<GoadEffect>>
    decreases events.len(),
{
    if events.len() == 0 {
        g
    } else {
        let prev = goads_added(g, events.drop_last(), turn);
        let e = events.last();
        prev.insert(
            e.target,
            list_or_empty(prev, e.target).push(GoadEffect { target: e.target, source: e.source, duration: e.duration, created_at: turn }),
        )
    }
}

/// The restrictions after the goads `events`: a goaded creature must attack
/// and cannot attack the player who goaded it.
pub open spec fn goad_restrictions_added(
    r: Map<EntityId, Seq<CombatRestriction>>,
    events: Seq<GoadEvent>,
) -> Map<EntityId, Seq<CombatRestriction>>
    decreases events.len(),
{
    if events.len() == 0 {
        r
    } else {
        let prev = goad_restrictions_added(r, events.drop_last());
        let e = events.last();
        prev.insert(
            e.target,
            add_unique(
                add_unique(list_or_empty(prev, e.target), CombatRestriction::MustAttack),
                CombatRestriction::CannotAttackPlayer(e.source),
            ),
        )
    }
}

/// No goad effect's last turn overflows.
pub open spec fn goads_fit(g: Map<EntityId, Seq<GoadEffect>>) -> bool {
    forall|k: EntityId, i: int| g.dom().contains(k) && 0 <= i < g[k].len()
        ==> #[trigger] g[k][i].created_at + g[k][i].duration <= u32::MAX
}

/// The goad effects once the expired ones (by turn `turn`) are gone, for
/// the creatures in `done`.
pub open spec fn goads_expired_for(g: Map<EntityId, Seq<GoadEffect>>, turn: u32, done: Set<EntityId>) -> Map<EntityId, Seq<GoadEffect>> {
    Map::new(|k: EntityId| g.dom().contains(k), |k: EntityId| if done.contains(k) { goads_remaining(g[k], turn) } else { g[k] })
}

/// A creature whose goad effects have all run out (some of them now) loses
/// the restrictions goad imposed, for the creatures in `done`.
pub open spec fn restrictions_expired_for(
    r: Map<EntityId, Seq<CombatRestriction>>,
    g: Map<EntityId, Seq<GoadEffect>>,
    turn: u32,
    done: Set<EntityId>,
) -> Map<EntityId, Seq<CombatRestriction>> {
    Map::new(
        |k: EntityId| r.dom().contains(k),
        |k: EntityId|
            if done.contains(k) && g.dom().contains(k) && any_goad_expired(g[k], turn) && goads_remaining(g[k], turn).len() == 0 {
                without_goad_restrictions(r[k])
            } else {
                r[k]
            },
    )
}

/// The lists of `m` that are not empty.
pub open spec fn nonempty_lists<T>(m: Map<EntityId, Seq<T>>) -> Map<EntityId, Seq<T>> {
    Map::new(|k: EntityId| m.dom().contains(k) && m[k].len() > 0, |k: EntityId| m[k])
}

/// After goad effects run out, no creature is left with an empty list of
/// goad effects or an empty list of combat restrictions: `goad_system`
/// keeps exactly the non-empty lists.
pub proof fn law_goad_leaves_no_empty_lists(
    goads: Map<EntityId, Seq<GoadEffect>>,
    restrictions: Map<EntityId, Seq<CombatRestriction>>,
    events: Seq<GoadEvent>,
    turn: u32,
)
    ensures
        ({
            let g = goads_added(goads, events, turn);
            let r = goad_restrictions_added(restrictions, events);
            let g2 = nonempty_lists(goads_expired_for(g, turn, g.dom()));
            let r2 = nonempty_lists(restrictions_expired_for(r, g, turn, g.dom()));
            &&& forall|k: EntityId| #[trigger] g2.dom().contains(k) ==> g2[k].len() > 0
            &&& forall|k: EntityId| #[trigger] r2.dom().contains(k) ==> r2[k].len() > 0
        }),
{
}

/// Goad runs out as it should: after `goad_system`, every goad effect left
/// still lasts, every effect that still lasts is kept, and a creature whose
/// goad effects have all run out (some of them now) keeps no restriction
/// that goad imposes.
pub proof fn law_goad_expiry(
    goads: Map<EntityId, Seq<GoadEffect>>,
    restrictions: Map<EntityId, Seq<CombatRestriction>>,
    events: Seq<GoadEvent>,
    turn: u32,
)
    ensures
        ({
            let g = goads_added(goads, events, turn);
            let r = goad_restrictions_added(restrictions, events);
            let g2 = nonempty_lists(goads_expired_for(g, turn, g.dom()));
            let r2 = nonempty_lists(restrictions_expired_for(r, g, turn, g.dom()));
            &&& forall|k: EntityId, i: int| g2.dom().contains(k) && 0 <= i < g2[k].len()
                ==> !goad_expired(#[trigger] g2[k][i], turn)
            &&& forall|k: EntityId, i: int| g.dom().contains(k) && 0 <= i < g[k].len() && !goad_expired(#[trigger] g[k][i], turn)
                ==> g2.dom().contains(k) && g2[k].contains(g[k][i])
            &&& forall|k: EntityId, i: int| g.dom().contains(k) && any_goad_expired(g[k], turn)
                && goads_remaining(g[k], turn).len() == 0 && r2.dom().contains(k) && 0 <= i < r2[k].len()
                ==> !is_goad_restriction(#[trigger] r2[k][i])
        }),
{
    broadcast use vstd::seq_lib::group_filter_ensures;
    let g = goads_added(goads, events, turn);
    let r = goad_restrictions_added(restrictions, events);
    let g2 = nonempty_lists(goads_expired_for(g, turn, g.dom()));
    let r2 = nonempty_lists(restrictions_expired_for(r, g, turn, g.dom()));
    let keep = |e: GoadEffect| !goad_expired(e, turn);
    let plain = |x: CombatRestriction| !is_goad_restriction(x);
    assert forall|k: EntityId, i: int| g2.dom().contains(k) && 0 <= i < g2[k].len() implies !goad_expired(
        #[trigger] g2[k][i],
        turn,
    ) by {
        g[k].lemma_filter_pred(keep, i);
    }
    assert forall|k: EntityId, i: int| g.dom().contains(k) && 0 <= i < g[k].len() && !goad_expired(#[trigger] g[k][i], turn)
        implies g2.dom().contains(k) && g2[k].contains(g[k][i]) by {
        g[k].lemma_filter_contains(keep, i);
        assert(goads_remaining(g[k], turn).contains(g[k][i]));
    }
    assert forall|k: EntityId, i: int| g.dom().contains(k) && any_goad_expired(g[k], turn) && goads_remaining(g[k], turn).len()
        == 0 && r2.dom().contains(k) && 0 <= i < r2[k].len() implies !is_goad_restriction(#[trigger] r2[k][i]) by {
        r[k].lemma_filter_pred(plain, i);
    }
}

/// Splits goad effects into those that still last and whether any ran out.
fn split_expired(effects: Vec<GoadEffect>, turn: u32) -> (r: (Vec<GoadEffect>, bool))
    requires
        forall|i: int| 0 <= i < effects@.len() ==> #[trigger] effects@[i].created_at + effects@[i].duration <= u32::MAX,
    ensures
        r.0@ == goads_remaining(effects@, turn),
        r.1 == any_goad_expired(effects@, turn),
{
    let ghost keep = |g: GoadEffect| !goad_expired(g, turn);
    let mut kept: Vec<GoadEffect> = Vec::new();
    let mut any = false;
    let mut i: usize = 0;
    while i < effects.len()
        invariant
            keep == (|g: GoadEffect| !goad_expired(g, turn)),
            forall|j: int| 0 <= j < effects@.len() ==> #[trigger] effects@[j].created_at + effects@[j].duration <= u32::MAX,
            i <= effects@.len(),
            kept@ == effects@.take(i as int).filter(keep),
            any == exists|j: int| 0 <= j < i && #[trigger] goad_expired(effects@[j], turn),
        decreases effects@.len() - i,
    {
        let g = effects[i];
        proof {
            assert(effects@.take(i + 1) =~= effects@.take(i as int).push(g));
            effects@.take(i as int).lemma_filter_push(g, keep);
        }
        let expired = turn >= g.created_at + g.duration;
        if expired {
            any = true;
            assert(goad_expired(effects@[i as int], turn));
        } else {
            kept.push(g);
        }
        i = i + 1;
    }
    assert(effects@.take(effects@.len() as int) =~= effects@);
    (kept, any)
}

/// `list` without the restrictions goad imposes.
fn strip_goad_restrictions(list: Vec<CombatRestriction>) -> (r: Vec<CombatRestriction>)
    ensures
        r@ == without_goad_restrictions(list@),
{
    let ghost pred = |r: CombatRestriction| !is_goad_restriction(r);
    let mut kept: Vec<CombatRestriction> = Vec::new();
    let mut i: usize = 0;
    while i < list.len()
        invariant
            pred == (|r: CombatRestriction| !is_goad_restriction(r)),
            i <= list@.len(),
            kept@ == list@.take(i as int).filter(pred),
        decreases list@.len() - i,
    {
        let x = list[i];
        proof {
            assert(list@.take(i + 1) =~= list@.take(i as int).push(x));
            list@.take(i as int).lemma_filter_push(x, pred);
        }
        let goad = match x {
            CombatRestriction::MustAttack => true,
            CombatRestriction::CannotAttackPlayer(_) => true,
            _ => false,
        };
        if !goad {
            kept.push(x);
        }
        i = i + 1;
    }
    assert(list@.take(list@.len() as int) =~= list@);
    kept
}

/// Handles goad: each goaded creature gets a goad effect lasting from this
/// turn, must attack, and cannot attack the player who goaded it. Goad
/// effects that have run out are dropped; a creature whose goad effects
/// have thus all run out loses those restrictions. Creatures left without
/// goad effects or without restrictions leave the maps.
pub fn goad_system(politics: &mut PoliticsSystem, goad_events: &Vec<GoadEvent>, turn_number: u32)
    requires
        old(politics).goad_effects.wf(),
        old(politics).combat_restrictions.wf(),
        goads_fit(goads_added(vec_lists(old(politics).goad_effects@), goad_events@, turn_number)),
    ensures
        final(politics).goad_effects.wf(),
        final(politics).combat_restrictions.wf(),
        ({
            let g = goads_added(vec_lists(old(politics).goad_effects@), goad_events@, turn_number);
            let r = goad_restrictions_added(vec_lists(old(politics).combat_restrictions@), goad_events@);
            &&& vec_lists(final(politics).goad_effects@) == nonempty_lists(
                goads_expired_for(g, turn_number, g.dom()),
            )
            &&& vec_lists(final(politics).combat_restrictions@) == nonempty_lists(
                restrictions_expired_for(r, g, turn_number, g.dom()),
            )
        }),
        *final(politics) == (PoliticsSystem {
            goad_effects: final(politics).goad_effects,
            combat_restrictions: final(politics).combat_restrictions,
            ..*old(politics)
        }),
{
    let mut i: usize = 0;
    while i < goad_events.len()
        invariant
            politics.goad_effects.wf(),
            politics.combat_restrictions.wf(),
            i <= goad_events@.len(),
            vec_lists(politics.goad_effects@) == goads_added(vec_lists(old(politics).goad_effects@), goad_events@.take(i as int), turn_number),
            vec_lists(politics.combat_restrictions@) == goad_restrictions_added(
                vec_lists(old(politics).combat_restrictions@),
                goad_events@.take(i as int),
            ),
            *politics == (PoliticsSystem {
                goad_effects: politics.goad_effects,
                combat_restrictions: politics.combat_restrictions,
                ..*old(politics)
            }),
        decreases goad_events@.len() - i,
    {
        let e = goad_events[i];
        proof {
            assert(goad_events@.take(i + 1).drop_last() =~= goad_events@.take(i as int));
        }
        let ghost g0 = politics.goad_effects@;
        politics.goad_effects.push_to(
            e.target,
            GoadEffect { target: e.target, source: e.source, duration: e.duration, created_at: turn_number },
        );
        proof {
            lemma_push_to_lists(
                g0,
                politics.goad_effects@,
                e.target,
                GoadEffect { target: e.target, source: e.source, duration: e.duration, created_at: turn_number },
            );
        }
        add_restriction(&mut politics.combat_restrictions, e.target, CombatRestriction::MustAttack);
        add_restriction(&mut politics.combat_restrictions, e.target, CombatRestriction::CannotAttackPlayer(e.source));
        proof {
            let r_prev = goad_restrictions_added(vec_lists(old(politics).combat_restrictions@), goad_events@.take(i as int));
            assert(list_or_empty(r_prev.insert(e.target, add_unique(list_or_empty(r_prev, e.target), CombatRestriction::MustAttack)), e.target)
                == add_unique(list_or_empty(r_prev, e.target), CombatRestriction::MustAttack));
            assert(vec_lists(politics.combat_restrictions@) =~= goad_restrictions_added(
                vec_lists(old(politics).combat_restrictions@),
                goad_events@.take(i + 1),
            ));
        }
        i = i + 1;
    }
    assert(goad_events@.take(goad_events@.len() as int) =~= goad_events@);
    let ghost g_a = vec_lists(politics.goad_effects@);
    let ghost r_a = vec_lists(politics.combat_restrictions@);
    let ghost keys = politics.goad_effects.key_seq();
    let mut k: usize = 0;
    proof {
        assert(goads_expired_for(g_a, turn_number, keys.take(0).to_set()) =~= g_a);
        assert(restrictions_expired_for(r_a, g_a, turn_number, keys.take(0).to_set()) =~= r_a);
    }
    while k < politics.goad_effects.entries.len()
        invariant
            politics.goad_effects.wf(),
            politics.combat_restrictions.wf(),
            keys == politics.goad_effects.key_seq(),
            keys.len() == politics.goad_effects.entries@.len(),
            goads_fit(g_a),
            k <= keys.len(),
            vec_lists(politics.goad_effects@) == goads_expired_for(g_a, turn_number, keys.take(k as int).to_set()),
            vec_lists(politics.combat_restrictions@) == restrictions_expired_for(r_a, g_a, turn_number, keys.take(k as int).to_set()),
            *politics == (PoliticsSystem {
                goad_effects: politics.goad_effects,
                combat_restrictions: politics.combat_restrictions,
                ..*old(politics)
            }),
        decreases keys.len() - k,
    {
        let c = politics.goad_effects.entries[k].0;
        let ghost done0 = keys.take(k as int);
        let ghost done1 = keys.take(k + 1);
        proof {
            crate::entity::lemma_key_index_unique(politics.goad_effects.entries@, k as int);
            assert(keys[k as int] == c);
            assert(done1 =~= done0.push(c));
            assert(!done0.contains(c)) by {
                if done0.contains(c) {
                    let w = choose|w: int| 0 <= w < done0.len() && done0[w] == c;
                    crate::entity::lemma_key_seq_unique(politics.goad_effects, w, k as int);
                }
            }
            assert forall|x: EntityId| #[trigger] done1.contains(x) == (done0.contains(x) || x == c) by {
                if done0.contains(x) {
                    let w = choose|w: int| 0 <= w < done0.len() && done0[w] == x;
                    assert(done1[w] == x);
                }
                if x == c {
                    assert(done1[k as int] == x);
                }
                if done1.contains(x) && x != c {
                    let w = choose|w: int| 0 <= w < done1.len() && done1[w] == x;
                    assert(done0[w] == x);
                }
            }
            assert(politics.goad_effects@.dom().contains(c));
            assert(vec_lists(politics.goad_effects@).dom().contains(c));
            assert(g_a.dom().contains(c));
            assert(vec_lists(politics.goad_effects@)[c] == g_a[c]);
        }
        let ghost gm = politics.goad_effects@;
        let effects = politics.goad_effects.replace_at(k, Vec::new());
        let ghost gm_mid = politics.goad_effects@;
        assert(effects@ == g_a[c]);
        let (remaining, had_expired) = split_expired(effects, turn_number);
        let now_empty = remaining.len() == 0;
        let ghost rem = remaining@;
        let _ = politics.goad_effects.replace_at(k, remaining);
        proof {
            assert(politics.goad_effects@ =~= gm.insert(c, politics.goad_effects@[c]));
            assert(politics.goad_effects@[c]@ == rem);
            let lhs = vec_lists(politics.goad_effects@);
            let rhs = goads_expired_for(g_a, turn_number, done1.to_set());
            assert forall|x: EntityId| #[trigger] lhs.dom().contains(x) == rhs.dom().contains(x) by {
                assert(vec_lists(gm).dom().contains(x) == gm.dom().contains(x));
            }
            assert forall|x: EntityId| lhs.dom().contains(x) implies #[trigger] lhs[x] == rhs[x] by {
                if x != c {
                    assert(lhs[x] == vec_lists(gm)[x]);
                    assert(done1.to_set().contains(x) == done0.to_set().contains(x));
                }
            }
            assert(lhs =~= rhs);
        }
        let ghost rcur = vec_lists(politics.combat_restrictions@);
        let ghost cond = had_expired && now_empty;
        proof {
            assert(cond == (g_a.dom().contains(c) && any_goad_expired(g_a[c], turn_number)
                && goads_remaining(g_a[c], turn_number).len() == 0));
            assert(rcur == restrictions_expired_for(r_a, g_a, turn_number, done0.to_set()));
        }
        if had_expired && now_empty {
            let ghost rm = politics.combat_restrictions@;
            match politics.combat_restrictions.find(c) {
                Some(idx) => {
                    let list = politics.combat_restrictions.replace_at(idx, Vec::new());
                    let stripped = strip_goad_restrictions(list);
                    let _ = politics.combat_restrictions.replace_at(idx, stripped);
                    proof {
                        crate::entity::lemma_key_index_unique(politics.combat_restrictions.entries@, idx as int);
                    }
                },
                None => {},
            }
        }
        proof {
            let lhs = vec_lists(politics.combat_restrictions@);
            let rhs = restrictions_expired_for(r_a, g_a, turn_number, done1.to_set());
            assert forall|x: EntityId| #[trigger] lhs.dom().contains(x) == rhs.dom().contains(x) by {
                assert(rcur.dom().contains(x) == r_a.dom().contains(x));
            }
            assert forall|x: EntityId| lhs.dom().contains(x) implies #[trigger] lhs[x] == rhs[x] by {
                assert(done1.to_set().contains(x) == (done0.to_set().contains(x) || x == c));
                if x != c {
                    assert(lhs[x] == rcur[x]);
                } else {
                    assert(!done0.to_set().contains(c));
                    assert(rcur[c] == r_a[c]);
                }
            }
            assert(lhs =~= rhs);
        }
        k = k + 1;
    }
    proof {
        assert(keys.take(keys.len() as int) =~= keys);
        assert forall|x: EntityId| #[trigger] keys.to_set().contains(x) == g_a.dom().contains(x) by {
            crate::entity::lemma_key_seq_contains(politics.goad_effects, x);
        }
        assert(keys.to_set() =~= g_a.dom());
    }
    let ghost g_b = vec_lists(politics.goad_effects@);
    let ghost r_b = vec_lists(politics.combat_restrictions@);
    politics.goad_effects.retain_nonempty();
    politics.combat_restrictions.retain_nonempty();
    proof {
        assert(goads_expired_for(g_a, turn_number, keys.to_set()) =~= goads_expired_for(g_a, turn_number, g_a.dom()));
        assert(restrictions_expired_for(r_a, g_a, turn_number, keys.to_set())
            =~= restrictions_expired_for(r_a, g_a, turn_number, g_a.dom()));
        assert(vec_lists(politics.goad_effects@) =~= nonempty_lists(g_b));
        assert(vec_lists(politics.combat_restrictions@) =~= nonempty_lists(r_b));
    }
}

/// The list of `o`, or the empty list.
pub open spec fn opt_or_empty(o: Option<Seq<EntityId>>) -> Seq<EntityId> {
    match o {
        Some(x) => x,
        None => Seq::empty(),
    }
}

/// One restriction's effect on a creature's must-attack list (`must`) or
/// cannot-attack list: must attack starts an empty list; must attack a
/// player adds that player to the must-attack list; cannot attack a player
/// adds that player to the cannot-attack list (each player once).
pub open spec fn target_step(o: Option<Seq<EntityId>>, r: CombatRestriction, must: bool) -> Option<Seq<EntityId>> {
    match r {
        CombatRestriction::MustAttack => if must {
            Some(opt_or_empty(o))
        } else {
            o
        },
        CombatRestriction::MustAttackPlayer(p) => if must {
            Some(add_unique(opt_or_empty(o), p))
        } else {
            o
        },
        CombatRestriction::CannotAttackPlayer(p) => if must {
            o
        } else {
            Some(add_unique(opt_or_empty(o), p))
        },
        _ => o,
    }
}

/// The effect of a creature's restrictions `rs`, in order.
pub open spec fn target_steps(o: Option<Seq<EntityId>>, rs: Seq<CombatRestriction>, must: bool) -> Option<Seq<EntityId>>
    decreases rs.len(),
{
    if rs.len() == 0 {
        o
    } else {
        target_step(target_steps(o, rs.drop_last(), must), rs.last(), must)
    }
}

/// A creature's list after the restrictions of the creatures in `done`.
pub open spec fn targets_for(
    m: Map<EntityId, Seq<EntityId>>,
    restrictions: Map<EntityId, Seq<CombatRestriction>>,
    must: bool,
    done: Set<EntityId>,
    k: EntityId,
) -> Option<Seq<EntityId>> {
    if done.contains(k) && restrictions.dom().contains(k) {
        target_steps(list_opt(m, k), restrictions[k], must)
    } else {
        list_opt(m, k)
    }
}

/// Every creature's list after all the restrictions.
pub open spec fn targets_after(
    m: Map<EntityId, Seq<EntityId>>,
    restrictions: Map<EntityId, Seq<CombatRestriction>>,
    must: bool,
) -> Map<EntityId, Seq<EntityId>> {
    Map::new(
        |k: EntityId| targets_for(m, restrictions, must, restrictions.dom(), k) is Some,
        |k: EntityId| targets_for(m, restrictions, must, restrictions.dom(), k)->0,
    )
}

/// Adds `p` to the list of `c` unless it is there (starting a list when
/// there is none).
fn add_target(m: &mut EntityMap<Vec<EntityId>>, c: EntityId, p: EntityId)
    requires
        old(m).wf(),
    ensures
        final(m).wf(),
        vec_lists(final(m)@) == vec_lists(old(m)@).insert(c, add_unique(list_or_empty(vec_lists(old(m)@), c), p)),
{
    let present = match m.get(c) {
        Some(list) => vec_contains(list, p),
        None => false,
    };
    if present {
        assert(vec_lists(m@) =~= vec_lists(old(m)@).insert(c, add_unique(list_or_empty(vec_lists(old(m)@), c), p)));
    } else {
        m.push_to(c, p);
        proof {
            lemma_push_to_lists(old(m)@, m@, c, p);
        }
    }
}

/// Makes sure `c` has a list.
fn ensure_target_list(m: &mut EntityMap<Vec<EntityId>>, c: EntityId)
    requires
        old(m).wf(),
    ensures
        final(m).wf(),
        vec_lists(final(m)@) == vec_lists(old(m)@).insert(c, list_or_empty(vec_lists(old(m)@), c)),
{
    if !m.contains_key(c) {
        m.insert(c, Vec::new());
    }
    assert(vec_lists(m@) =~= vec_lists(old(m)@).insert(c, list_or_empty(vec_lists(old(m)@), c)));
}

/// One restriction's effect on both lists of creature `c`.
fn apply_restriction_targets(combat_state: &mut CombatState, c: EntityId, r: CombatRestriction)
    requires
        old(combat_state).must_attack.wf(),
        old(combat_state).cannot_attack.wf(),
    ensures
        final(combat_state).must_attack.wf(),
        final(combat_state).cannot_attack.wf(),
        forall|k: EntityId| #[trigger] list_opt(vec_lists(final(combat_state).must_attack@), k) == if k == c {
            target_step(list_opt(vec_lists(old(combat_state).must_attack@), c), r, true)
        } else {
            list_opt(vec_lists(old(combat_state).must_attack@), k)
        },
        forall|k: EntityId| #[trigger] list_opt(vec_lists(final(combat_state).cannot_attack@), k) == if k == c {
            target_step(list_opt(vec_lists(old(combat_state).cannot_attack@), c), r, false)
        } else {
            list_opt(vec_lists(old(combat_state).cannot_attack@), k)
        },
        *final(combat_state) == (CombatState {
            must_attack: final(combat_state).must_attack,
            cannot_attack: final(combat_state).cannot_attack,
            ..*old(combat_state)
        }),
{
    match r {
        CombatRestriction::MustAttack => {
            ensure_target_list(&mut combat_state.must_attack, c);
        },
        CombatRestriction::MustAttackPlayer(p) => {
            add_target(&mut combat_state.must_attack, c, p);
        },
        CombatRestriction::CannotAttackPlayer(p) => {
            add_target(&mut combat_state.cannot_attack, c, p);
        },
        _ => {},
    }
}

/// Puts the political combat restrictions into combat: a creature that must
/// attack is listed among the creatures that must attack; a creature that
/// must attack a player, or cannot attack a player, has that player added
/// to its list (once). Restrictions on blocking are checked when blockers
/// are declared.
pub fn combat_restrictions_system(politics: &PoliticsSystem, combat_state: &mut CombatState)
    requires
        politics.combat_restrictions.wf(),
        old(combat_state).must_attack.wf(),
        old(combat_state).cannot_attack.wf(),
    ensures
        final(combat_state).must_attack.wf(),
        final(combat_state).cannot_attack.wf(),
        vec_lists(final(combat_state).must_attack@) == targets_after(
            vec_lists(old(combat_state).must_attack@),
            vec_lists(politics.combat_restrictions@),
            true,
        ),
        vec_lists(final(combat_state).cannot_attack@) == targets_after(
            vec_lists(old(combat_state).cannot_attack@),
            vec_lists(politics.combat_restrictions@),
            false,
        ),
        *final(combat_state) == (CombatState {
            must_attack: final(combat_state).must_attack,
            cannot_attack: final(combat_state).cannot_attack,
            ..*old(combat_state)
        }),
{
    let ghost m0 = vec_lists(old(combat_state).must_attack@);
    let ghost c0 = vec_lists(old(combat_state).cannot_attack@);
    let ghost rmap = vec_lists(politics.combat_restrictions@);
    let ghost keys = politics.combat_restrictions.key_seq();
    let mut i: usize = 0;
    while i < politics.combat_restrictions.entries.len()
        invariant
            politics.combat_restrictions.wf(),
            keys == politics.combat_restrictions.key_seq(),
            keys.len() == politics.combat_restrictions.entries@.len(),
            rmap == vec_lists(politics.combat_restrictions@),
            combat_state.must_attack.wf(),
            combat_state.cannot_attack.wf(),
            i <= keys.len(),
            forall|k: EntityId| #[trigger] list_opt(vec_lists(combat_state.must_attack@), k)
                == targets_for(m0, rmap, true, keys.take(i as int).to_set(), k),
            forall|k: EntityId| #[trigger] list_opt(vec_lists(combat_state.cannot_attack@), k)
                == targets_for(c0, rmap, false, keys.take(i as int).to_set(), k),
            *combat_state == (CombatState {
                must_attack: combat_state.must_attack,
                cannot_attack: combat_state.cannot_attack,
                ..*old(combat_state)
            }),
        decreases keys.len() - i,
    {
        let c = politics.combat_restrictions.entries[i].0;
        let rs = &politics.combat_restrictions.entries[i].1;
        let ghost done0 = keys.take(i as int).to_set();
        let ghost done1 = keys.take(i + 1).to_set();
        proof {
            crate::entity::lemma_key_index_unique(politics.combat_restrictions.entries@, i as int);
            assert(keys[i as int] == c);
            assert(keys.take(i + 1) =~= keys.take(i as int).push(c));
            assert(!done0.contains(c)) by {
                if keys.take(i as int).contains(c) {
                    let w = choose|w: int| 0 <= w < i && keys.take(i as int)[w] == c;
                    crate::entity::lemma_key_seq_unique(politics.combat_restrictions, w, i as int);
                }
            }
            assert forall|x: EntityId| #[trigger] done1.contains(x) == (done0.contains(x) || x == c) by {
                let t0 = keys.take(i as int);
                let t1 = keys.take(i + 1);
                if t0.contains(x) {
                    let w = choose|w: int| 0 <= w < t0.len() && t0[w] == x;
                    assert(t1[w] == x);
                }
                if x == c {
                    assert(t1[i as int] == x);
                }
                if t1.contains(x) && x != c {
                    let w = choose|w: int| 0 <= w < t1.len() && t1[w] == x;
                    assert(t0[w] == x);
                }
            }
            assert(rmap.dom().contains(c));
            assert(rmap[c] == rs@);
        }
        let mut j: usize = 0;
        while j < rs.len()
            invariant
                combat_state.must_attack.wf(),
                combat_state.cannot_attack.wf(),
                j <= rs@.len(),
                forall|k: EntityId| #[trigger] list_opt(vec_lists(combat_state.must_attack@), k) == if k == c {
                    target_steps(list_opt(m0, c), rs@.take(j as int), true)
                } else {
                    targets_for(m0, rmap, true, done0, k)
                },
                forall|k: EntityId| #[trigger] list_opt(vec_lists(combat_state.cannot_attack@), k) == if k == c {
                    target_steps(list_opt(c0, c), rs@.take(j as int), false)
                } else {
                    targets_for(c0, rmap, false, done0, k)
                },
                *combat_state == (CombatState {
                    must_attack: combat_state.must_attack,
                    cannot_attack: combat_state.cannot_attack,
                    ..*old(combat_state)
                }),
            decreases rs@.len() - j,
        {
            proof {
                assert(rs@.take(j + 1).drop_last() =~= rs@.take(j as int));
            }
            apply_restriction_targets(combat_state, c, rs[j]);
            j = j + 1;
        }
        proof {
            assert(rs@.take(rs@.len() as int) =~= rs@);
        }
        i = i + 1;
    }
    proof {
        assert(keys.take(keys.len() as int) =~= keys);
        assert forall|x: EntityId| #[trigger] keys.to_set().contains(x) == rmap.dom().contains(x) by {
            crate::entity::lemma_key_seq_contains(politics.combat_restrictions, x);
        }
        assert(keys.to_set() =~= rmap.dom());
        let fm = vec_lists(combat_state.must_attack@);
        let tm = targets_after(m0, rmap, true);
        assert forall|x: EntityId| #[trigger] fm.dom().contains(x) == tm.dom().contains(x) by {
            assert(list_opt(fm, x) == targets_for(m0, rmap, true, rmap.dom(), x));
        }
        assert forall|x: EntityId| fm.dom().contains(x) implies #[trigger] fm[x] == tm[x] by {
            assert(list_opt(fm, x) == targets_for(m0, rmap, true, rmap.dom(), x));
        }
        assert(fm =~= tm);
        let fc = vec_lists(combat_state.cannot_attack@);
        let tc = targets_after(c0, rmap, false);
        assert forall|x: EntityId| #[trigger] fc.dom().contains(x) == tc.dom().contains(x) by {
            assert(list_opt(fc, x) == targets_for(c0, rmap, false, rmap.dom(), x));
        }
        assert forall|x: EntityId| fc.dom().contains(x) implies #[trigger] fc[x] == tc[x] by {
            assert(list_opt(fc, x) == targets_for(c0, rmap, false, rmap.dom(), x));
        }
        assert(fc =~= tc);
    }
}

} // verus!
