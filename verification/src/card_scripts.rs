//! Card interaction: selecting cards, choosing targets, playing cards onto
//! the stack and countering spells.

use vstd::prelude::*;
use crate::entity::{EntityId, EntityMap};

verus! {

/// Identifies a card and its archetype (which script it runs).
#[derive(Clone, Copy, PartialEq, Eq, Structural, Debug)]
pub struct CardId {
    pub id: u64,
    pub archetype_id: u32,
}

/// What a card needs targeted.
#[derive(Clone, Copy, PartialEq, Eq, Structural, Debug)]
pub struct TargetType {
    pub kind: u32,
}

/// What selecting a card leads to.
#[derive(Clone, Copy, PartialEq, Eq, Structural, Debug)]
pub enum InteractionResult {
    /// Nothing more to do.
    Continue,
    /// A target must be chosen.
    SelectTarget(TargetType),
}

/// The pointer interaction with an element.
#[derive(Clone, Copy, PartialEq, Eq, Structural, Debug)]
pub enum Interaction {
    Pressed,
    Hovered,
    Idle,
}

/// The state of card selection.
#[derive(Clone, Copy, PartialEq, Eq, Structural, Debug)]
pub enum CardSelectionState {
    Idle,
    Targeting,
}

/// A card was selected.
#[derive(Clone, Copy, PartialEq, Eq, Structural, Debug)]
pub struct SelectCardEvent {
    pub card_id: CardId,
    pub interaction: InteractionResult,
}

/// A target must be chosen.
#[derive(Clone, Copy, PartialEq, Eq, Structural, Debug)]
pub struct TargetSelectionInput {
    pub target_type: TargetType,
}

/// A target was chosen.
#[derive(Clone, Copy, PartialEq, Eq, Structural, Debug)]
pub struct TargetSelectionOutput {
    pub target: TargetType,
}

/// A card is played, with its target if any.
#[derive(Clone, Copy, PartialEq, Eq, Structural, Debug)]
pub struct CardPlayEvent {
    pub card_id: CardId,
    pub target: Option<TargetType>,
}

/// The script a card archetype runs.
#[derive(Clone, Copy, PartialEq, Eq, Structural, Debug)]
pub struct CardScript {
    pub archetype_id: u32,
}

/// A played card goes on the stack with its script.
#[derive(Clone, Copy, PartialEq, Eq, Structural, Debug)]
pub struct AddToStackEvent {
    pub card_id: CardId,
    pub script: CardScript,
    pub target: Option<TargetType>,
}

/// A request to counter a card's spell.
#[derive(Clone, Copy, PartialEq, Eq, Structural, Debug)]
pub struct CounterSpellInputEvent {
    pub card_id: CardId,
}

/// Whether a spell was countered.
#[derive(Clone, Copy, PartialEq, Eq, Structural, Debug)]
pub struct CounterSpellOutputEvent {
    pub card_id: CardId,
    pub countered: bool,
}

/// The play state of a card.
#[derive(Clone, Copy, PartialEq, Eq, Structural, Debug)]
pub struct CardState {
    pub played: bool,
    pub countered: bool,
}

impl CardState {
    /// Marks the card played.
    pub fn play(&mut self)
        ensures
            *final(self) == (CardState { played: true, ..*old(self) }),
    {
        self.played = true;
    }

    /// A played card that is not yet countered can be countered.
    pub fn can_counter(&self) -> (b: bool)
        ensures
            b == (self.played && !self.countered),
    {
        self.played && !self.countered
    }

    /// Marks the card countered.
    pub fn counter(&mut self)
        ensures
            *final(self) == (CardState { countered: true, ..*old(self) }),
    {
        self.countered = true;
    }
}

/// The scripts of the card archetypes.
pub struct CardScriptMap {
    pub map: Vec<(u32, CardScript)>,
}

/// The cards selected so far.
pub struct SelectedCardIds {
    pub ids: Vec<CardId>,
}

/// Each pressed element whose parent is a card selects that card.
pub open spec fn selections(presses: Seq<(Interaction, EntityId)>, cards: Map<EntityId, CardId>) -> Seq<SelectCardEvent>
    decreases presses.len(),
{
    if presses.len() == 0 {
        Seq::empty()
    } else {
        let p = presses.last();
        selections(presses.drop_last(), cards) + if p.0 == Interaction::Pressed && cards.dom().contains(p.1) {
            seq![SelectCardEvent { card_id: cards[p.1], interaction: InteractionResult::Continue }]
        } else {
            Seq::empty()
        }
    }
}

/// Turns presses on card elements into card selections.
pub fn handle_entity_selection(interactions: &Vec<(Interaction, EntityId)>, parent_cards: &EntityMap<CardId>) -> (out: Vec<SelectCardEvent>)
    requires
        parent_cards.wf(),
    ensures
        out@ == selections(interactions@, parent_cards@),
{
    let mut out: Vec<SelectCardEvent> = Vec::new();
    let mut i: usize = 0;
    while i < interactions.len()
        invariant
            parent_cards.wf(),
            i <= interactions@.len(),
            out@ == selections(interactions@.take(i as int), parent_cards@),
        decreases interactions@.len() - i,
    {
        let (interaction, parent) = interactions[i];
        proof {
            assert(interactions@.take(i + 1).drop_last() =~= interactions@.take(i as int));
        }
        if interaction == Interaction::Pressed {
            match parent_cards.get(parent) {
                Some(card_id) => {
                    out.push(SelectCardEvent { card_id: *card_id, interaction: InteractionResult::Continue });
                },
                None => {},
            }
        }
        proof {
            assert(out@ =~= selections(interactions@.take(i + 1), parent_cards@));
        }
        i = i + 1;
    }
    assert(interactions@.take(interactions@.len() as int) =~= interactions@);
    out
}

/// The selections that ask for a target, in order.
pub open spec fn targeting(events: Seq<SelectCardEvent>) -> Seq<SelectCardEvent>
    decreases events.len(),
{
    if events.len() == 0 {
        Seq::empty()
    } else {
        targeting(events.drop_last()) + match events.last().interaction {
            InteractionResult::SelectTarget(_) => seq![events.last()],
            InteractionResult::Continue => Seq::empty(),
        }
    }
}

/// The target requests of selections that ask for a target.
pub open spec fn target_requests(events: Seq<SelectCardEvent>) -> Seq<TargetSelectionInput> {
    targeting(events).map_values(
        |e: SelectCardEvent| TargetSelectionInput {
            target_type: match e.interaction {
                InteractionResult::SelectTarget(t) => t,
                InteractionResult::Continue => TargetType { kind: 0 },
            },
        },
    )
}

/// Handles card selections: a selection that asks for a target records the
/// card, asks for the target and enters targeting; other selections do
/// nothing. Returns the target requests and the new selection state, if any.
pub fn handle_card_selection_event(
    events: &Vec<SelectCardEvent>,
    selected_ids: &mut SelectedCardIds,
) -> (out: (Vec<TargetSelectionInput>, Option<CardSelectionState>))
    ensures
        final(selected_ids).ids@ == old(selected_ids).ids@ + targeting(events@).map_values(|e: SelectCardEvent| e.card_id),
        out.0@ == target_requests(events@),
        out.1 == if targeting(events@).len() > 0 {
            Some(CardSelectionState::Targeting)
        } else {
            None::<CardSelectionState>
        },
{
    let mut requests: Vec<TargetSelectionInput> = Vec::new();
    let mut next: Option<CardSelectionState> = None;
    let mut i: usize = 0;
    while i < events.len()
        invariant
            i <= events@.len(),
            selected_ids.ids@ == old(selected_ids).ids@ + targeting(events@.take(i as int)).map_values(|e: SelectCardEvent| e.card_id),
            requests@ == target_requests(events@.take(i as int)),
            next == if targeting(events@.take(i as int)).len() > 0 {
                Some(CardSelectionState::Targeting)
            } else {
                None::<CardSelectionState>
            },
        decreases events@.len() - i,
    {
        let e = events[i];
        let ghost t0 = targeting(events@.take(i as int));
        proof {
            assert(events@.take(i + 1).drop_last() =~= events@.take(i as int));
        }
        match e.interaction {
            InteractionResult::Continue => {
                assert(targeting(events@.take(i + 1)) =~= t0);
            },
            InteractionResult::SelectTarget(target_type) => {
                selected_ids.ids.push(e.card_id);
                requests.push(TargetSelectionInput { target_type });
                next = Some(CardSelectionState::Targeting);
                proof {
                    assert(targeting(events@.take(i + 1)) =~= t0.push(e));
                    assert(selected_ids.ids@ =~= old(selected_ids).ids@ + targeting(events@.take(i + 1)).map_values(|x: SelectCardEvent| x.card_id));
                    assert(requests@ =~= target_requests(events@.take(i + 1)));
                }
            },
        }
        i = i + 1;
    }
    assert(events@.take(events@.len() as int) =~= events@);
    (requests, next)
}

/// Chooses targets: for now each request's target is the requested target type.
pub fn handle_target_selection_input(events: &Vec<TargetSelectionInput>) -> (out: Vec<TargetSelectionOutput>)
    ensures
        out@ == events@.map_values(|e: TargetSelectionInput| TargetSelectionOutput { target: e.target_type }),
{
    let mut out: Vec<TargetSelectionOutput> = Vec::new();
    let mut i: usize = 0;
    while i < events.len()
        invariant
            i <= events@.len(),
            out@ == events@.take(i as int).map_values(|e: TargetSelectionInput| TargetSelectionOutput { target: e.target_type }),
        decreases events@.len() - i,
    {
        out.push(TargetSelectionOutput { target: events[i].target_type });
        i = i + 1;
        assert(out@ =~= events@.take(i as int).map_values(|e: TargetSelectionInput| TargetSelectionOutput { target: e.target_type }));
    }
    assert(events@.take(events@.len() as int) =~= events@);
    out
}

/// Plays the chosen targets: for the first chosen target, the first selected
/// card (if any) is played at it; every chosen target clears the selection
/// and returns to idle.
pub fn handle_target_selection_output(
    events: &Vec<TargetSelectionOutput>,
    selected_ids: &mut SelectedCardIds,
) -> (out: (Vec<CardPlayEvent>, Option<CardSelectionState>))
    ensures
        events@.len() == 0 ==> final(selected_ids).ids@ == old(selected_ids).ids@ && out.0@.len() == 0 && out.1 is None,
        events@.len() > 0 ==> final(selected_ids).ids@.len() == 0 && out.1 == Some(CardSelectionState::Idle),
        events@.len() > 0 && old(selected_ids).ids@.len() > 0 ==> out.0@ == seq![
            CardPlayEvent { card_id: old(selected_ids).ids@[0], target: Some(events@[0].target) },
        ],
        events@.len() > 0 && old(selected_ids).ids@.len() == 0 ==> out.0@.len() == 0,
{
    let mut plays: Vec<CardPlayEvent> = Vec::new();
    let mut next: Option<CardSelectionState> = None;
    let mut i: usize = 0;
    while i < events.len()
        invariant
            i <= events@.len(),
            i == 0 ==> selected_ids.ids@ == old(selected_ids).ids@ && plays@.len() == 0 && next is None,
            i > 0 ==> selected_ids.ids@.len() == 0 && next == Some(CardSelectionState::Idle),
            i > 0 && old(selected_ids).ids@.len() > 0 ==> plays@ == seq![
                CardPlayEvent { card_id: old(selected_ids).ids@[0], target: Some(events@[0].target) },
            ],
            i > 0 && old(selected_ids).ids@.len() == 0 ==> plays@.len() == 0,
        decreases events@.len() - i,
    {
        if selected_ids.ids.len() > 0 {
            plays.push(CardPlayEvent { card_id: selected_ids.ids[0], target: Some(events[i].target) });
        }
        selected_ids.ids.clear();
        next = Some(CardSelectionState::Idle);
        i = i + 1;
    }
    (plays, next)
}

/// The script of an archetype, if any (the first entry for it).
pub open spec fn script_of(map: Seq<(u32, CardScript)>, archetype: u32) -> Option<CardScript>
    decreases map.len(),
{
    if map.len() == 0 {
        None
    } else {
        match script_of(map.drop_last(), archetype) {
            Some(s) => Some(s),
            None => if map.last().0 == archetype {
                Some(map.last().1)
            } else {
                None
            },
        }
    }
}

/// The script of an archetype.
fn find_script(map: &Vec<(u32, CardScript)>, archetype: u32) -> (r: Option<CardScript>)
    ensures
        r == script_of(map@, archetype),
{
    let mut i: usize = 0;
    while i < map.len()
        invariant
            i <= map@.len(),
            script_of(map@.take(i as int), archetype) is None,
        decreases map@.len() - i,
    {
        proof {
            assert(map@.take(i + 1).drop_last() =~= map@.take(i as int));
        }
        if map[i].0 == archetype {
            proof {
                lemma_script_prefix(map@, archetype, i + 1);
            }
            return Some(map[i].1);
        }
        i = i + 1;
    }
    assert(map@.take(map@.len() as int) =~= map@);
    None
}

/// The script found in a prefix is the script of the whole.
proof fn lemma_script_prefix(s: Seq<(u32, CardScript)>, archetype: u32, k: int)
    requires
        0 <= k <= s.len(),
        script_of(s.take(k), archetype) is Some,
    ensures
        script_of(s, archetype) == script_of(s.take(k), archetype),
    decreases s.len(),
{
    if k == s.len() {
        assert(s.take(k) =~= s);
    } else {
        assert(s.drop_last().take(k) =~= s.take(k));
        lemma_script_prefix(s.drop_last(), archetype, k);
    }
}

/// What playing `e` does to the cards: each card with the played identifier
/// is marked played.
pub open spec fn played_states(cards: Seq<(CardId, CardState)>, events: Seq<CardPlayEvent>) -> Seq<(CardId, CardState)> {
    Seq::new(
        cards.len(),
        |i: int| (cards[i].0, if exists|j: int| 0 <= j < events.len() && #[trigger] events[j].card_id == cards[i].0 {
            CardState { played: true, ..cards[i].1 }
        } else {
            cards[i].1
        }),
    )
}

/// The stack additions of playing `e`: one for each card with the played
/// identifier whose archetype has a script, in card order.
pub open spec fn stack_additions_for(cards: Seq<(CardId, CardState)>, scripts: Seq<(u32, CardScript)>, e: CardPlayEvent) -> Seq<AddToStackEvent>
    decreases cards.len(),
{
    if cards.len() == 0 {
        Seq::empty()
    } else {
        let c = cards.last().0;
        stack_additions_for(cards.drop_last(), scripts, e) + if c == e.card_id && script_of(scripts, c.archetype_id) is Some {
            seq![AddToStackEvent { card_id: c, script: script_of(scripts, c.archetype_id)->0, target: e.target }]
        } else {
            Seq::empty()
        }
    }
}

/// The stack additions of all plays, in order.
pub open spec fn stack_additions(cards: Seq<(CardId, CardState)>, scripts: Seq<(u32, CardScript)>, events: Seq<CardPlayEvent>) -> Seq<AddToStackEvent>
    decreases events.len(),
{
    if events.len() == 0 {
        Seq::empty()
    } else {
        stack_additions(cards, scripts, events.drop_last()) + stack_additions_for(cards, scripts, events.last())
    }
}

/// A call of a script's play effect: the script runs for the played card
/// with the play's target.
#[derive(Clone, Copy, PartialEq, Eq, Structural, Debug)]
pub struct ScriptPlay {
    pub script: CardScript,
    pub card_id: CardId,
    pub target: Option<TargetType>,
}

/// The play-effect call that goes with a stack addition.
pub open spec fn play_call(a: AddToStackEvent) -> ScriptPlay {
    ScriptPlay { script: a.script, card_id: a.card_id, target: a.target }
}

/// What playing cards produces: the play-effect calls to make and the stack
/// additions, one of each per played card with a script, in the same order.
pub struct CardPlayOutput {
    pub plays: Vec<ScriptPlay>,
    pub stack: Vec<AddToStackEvent>,
}

/// Plays cards: every card with a played identifier is marked played and,
/// when its archetype has a script, that script's play effect is to be run
/// for the card with the play's target, and the card goes on the stack with
/// the script and the target. The calls and the stack additions are handed
/// back in order; the owner of the scripts runs each call before sending the
/// matching stack addition.
pub fn handle_card_play_event(
    events: &Vec<CardPlayEvent>,
    cards: &mut Vec<(CardId, CardState)>,
    script_map: &CardScriptMap,
) -> (r: CardPlayOutput)
    ensures
        final(cards)@ == played_states(old(cards)@, events@),
        r.stack@ == stack_additions(old(cards)@, script_map.map@, events@),
        r.plays@ == r.stack@.map_values(|a: AddToStackEvent| play_call(a)),
{
    let ghost c0 = cards@;
    let mut out: Vec<AddToStackEvent> = Vec::new();
    let mut plays: Vec<ScriptPlay> = Vec::new();
    let mut i: usize = 0;
    while i < events.len()
        invariant
            i <= events@.len(),
            cards@ == played_states(c0, events@.take(i as int)),
            out@ == stack_additions(c0, script_map.map@, events@.take(i as int)),
            plays@ == out@.map_values(|a: AddToStackEvent| play_call(a)),
        decreases events@.len() - i,
    {
        let e = events[i];
        proof {
            assert(events@.take(i + 1).drop_last() =~= events@.take(i as int));
        }
        let ghost out0 = out@;
        let ghost before = cards@;
        let mut j: usize = 0;
        while j < cards.len()
            invariant
                cards@.len() == c0.len(),
                before == played_states(c0, events@.take(i as int)),
                j <= cards@.len(),
                forall|k: int| 0 <= k < cards@.len() ==> #[trigger] cards@[k].0 == c0[k].0,
                forall|k: int| 0 <= k < j ==> #[trigger] cards@[k].1 == if c0[k].0 == e.card_id {
                    CardState { played: true, ..before[k].1 }
                } else {
                    before[k].1
                },
                forall|k: int| j <= k < cards@.len() ==> #[trigger] cards@[k] == before[k],
                out@ == out0 + stack_additions_for(c0.take(j as int), script_map.map@, e),
                plays@ == out@.map_values(|a: AddToStackEvent| play_call(a)),
            decreases cards@.len() - j,
        {
            proof {
                assert(c0.take(j + 1).drop_last() =~= c0.take(j as int));
            }
            let (card_id, state) = cards[j];
            if card_id == e.card_id {
                let mut st = state;
                st.play();
                cards.set(j, (card_id, st));
                match find_script(&script_map.map, card_id.archetype_id) {
                    Some(script) => {
                        plays.push(ScriptPlay { script, card_id, target: e.target });
                        out.push(AddToStackEvent { card_id, script, target: e.target });
                        assert(plays@ =~= out@.map_values(|a: AddToStackEvent| play_call(a)));
                    },
                    None => {},
                }
            }
            proof {
                assert(out@ =~= out0 + stack_additions_for(c0.take(j + 1), script_map.map@, e));
            }
            j = j + 1;
        }
        proof {
            assert(c0.take(c0.len() as int) =~= c0);
            assert(cards@ =~= played_states(c0, events@.take(i + 1))) by {
                assert forall|k: int| 0 <= k < c0.len() implies #[trigger] cards@[k] == played_states(c0, events@.take(i + 1))[k] by {
                    let t0 = events@.take(i as int);
                    let t1 = events@.take(i + 1);
                    let ex1 = exists|w: int| 0 <= w < t1.len() && #[trigger] t1[w].card_id == c0[k].0;
                    let ex0 = exists|w: int| 0 <= w < t0.len() && #[trigger] t0[w].card_id == c0[k].0;
                    if ex0 {
                        let w = choose|w: int| 0 <= w < t0.len() && #[trigger] t0[w].card_id == c0[k].0;
                        assert(t1[w].card_id == c0[k].0);
                    }
                    if c0[k].0 == e.card_id {
                        assert(t1[i as int].card_id == c0[k].0);
                    }
                    if ex1 && c0[k].0 != e.card_id {
                        let w = choose|w: int| 0 <= w < t1.len() && #[trigger] t1[w].card_id == c0[k].0;
                        assert(w < i);
                        assert(t0[w].card_id == c0[k].0);
                    }
                }
            }
        }
        i = i + 1;
    }
    assert(events@.take(events@.len() as int) =~= events@);
    CardPlayOutput { plays, stack: out }
}

/// The answers to counter requests `events` against the cards `cards`.
pub open spec fn counter_answers(cards: Seq<(CardId, CardState)>, e: CounterSpellInputEvent) -> Seq<CounterSpellOutputEvent>
    decreases cards.len(),
{
    if cards.len() == 0 {
        Seq::empty()
    } else {
        let c = cards.last();
        counter_answers(cards.drop_last(), e) + if c.0 == e.card_id {
            seq![CounterSpellOutputEvent { card_id: c.0, countered: c.1.played && !c.1.countered }]
        } else {
            Seq::empty()
        }
    }
}

/// The cards after a counter request: each card with the identifier that
/// can be countered is countered.
pub open spec fn counter_one(cards: Seq<(CardId, CardState)>, e: CounterSpellInputEvent) -> Seq<(CardId, CardState)> {
    Seq::new(
        cards.len(),
        |i: int| (cards[i].0, if cards[i].0 == e.card_id && cards[i].1.played && !cards[i].1.countered {
            CardState { countered: true, ..cards[i].1 }
        } else {
            cards[i].1
        }),
    )
}

/// The cards and answers after the counter requests `events`, in order.
pub open spec fn counter_all(cards: Seq<(CardId, CardState)>, events: Seq<CounterSpellInputEvent>) -> (Seq<(CardId, CardState)>, Seq<CounterSpellOutputEvent>)
    decreases events.len(),
{
    if events.len() == 0 {
        (cards, Seq::empty())
    } else {
        let prev = counter_all(cards, events.drop_last());
        (counter_one(prev.0, events.last()), prev.1 + counter_answers(prev.0, events.last()))
    }
}

/// Counters spells: each card with a requested identifier is countered when
/// it can be (played and not yet countered), and each such card gets an
/// answer saying whether it was countered.
pub fn handle_counter_spell_input(
    events: &Vec<CounterSpellInputEvent>,
    cards: &mut Vec<(CardId, CardState)>,
) -> (out: Vec<CounterSpellOutputEvent>)
    ensures
        final(cards)@ == counter_all(old(cards)@, events@).0,
        out@ == counter_all(old(cards)@, events@).1,
{
    let ghost c0 = cards@;
    let mut out: Vec<CounterSpellOutputEvent> = Vec::new();
    let mut i: usize = 0;
    while i < events.len()
        invariant
            i <= events@.len(),
            cards@ == counter_all(c0, events@.take(i as int)).0,
            out@ == counter_all(c0, events@.take(i as int)).1,
        decreases events@.len() - i,
    {
        let e = events[i];
        proof {
            assert(events@.take(i + 1).drop_last() =~= events@.take(i as int));
        }
        let ghost before = cards@;
        let ghost out0 = out@;
        let mut j: usize = 0;
        while j < cards.len()
            invariant
                cards@.len() == before.len(),
                j <= cards@.len(),
                forall|k: int| 0 <= k < j ==> #[trigger] cards@[k] == counter_one(before, e)[k],
                forall|k: int| j <= k < cards@.len() ==> #[trigger] cards@[k] == before[k],
                out@ == out0 + counter_answers(before.take(j as int), e),
            decreases cards@.len() - j,
        {
            proof {
                assert(before.take(j + 1).drop_last() =~= before.take(j as int));
            }
            let (card_id, state) = cards[j];
            if card_id == e.card_id {
                if state.can_counter() {
                    let mut st = state;
                    st.counter();
                    cards.set(j, (card_id, st));
                    out.push(CounterSpellOutputEvent { card_id, countered: true });
                } else {
                    out.push(CounterSpellOutputEvent { card_id, countered: false });
                }
            }
            proof {
                assert(out@ =~= out0 + counter_answers(before.take(j + 1), e));
            }
            j = j + 1;
        }
        proof {
            assert(before.take(before.len() as int) =~= before);
            assert(cards@ =~= counter_one(before, e));
        }
        i = i + 1;
    }
    assert(events@.take(events@.len() as int) =~= events@);
    out
}

} // verus!
