//! Game event logging: every game event becomes a log line naming its kind
//! followed by the event's debug text.

use vstd::prelude::*;
use crate::entity::EntityId;
use crate::game::Zone;

verus! {

/// Something happened to a card.
#[derive(Clone, Copy, PartialEq, Eq, Structural, Debug)]
pub struct CardEvent {
    pub card: EntityId,
}

/// Something happened to a player.
#[derive(Clone, Copy, PartialEq, Eq, Structural, Debug)]
pub struct PlayerEvent {
    pub player: EntityId,
}

/// A card moved to a zone.
#[derive(Clone, Copy, PartialEq, Eq, Structural, Debug)]
pub struct ZoneEvent {
    pub card: EntityId,
    pub zone: Zone,
}

/// A turn event.
#[derive(Clone, Copy, PartialEq, Eq, Structural, Debug)]
pub struct TurnEvent {
    pub turn: u32,
}

/// Something happened on the stack.
#[derive(Clone, Copy, PartialEq, Eq, Structural, Debug)]
pub struct StackEvent {
    pub item: EntityId,
}

/// The game state changed.
#[derive(Clone, Copy, PartialEq, Eq, Structural, Debug)]
pub struct GameStateEvent {
    pub player: EntityId,
}

/// A line for the game log.
pub struct LogEvent {
    pub message: String,
}

/// The text that `{:?}` formatting gives a card event.
pub uninterp spec fn card_event_debug(e: CardEvent) -> Seq<char>;

/// The text that `{:?}` formatting gives a player event.
pub uninterp spec fn player_event_debug(e: PlayerEvent) -> Seq<char>;

/// The text that `{:?}` formatting gives a zone event.
pub uninterp spec fn zone_event_debug(e: ZoneEvent) -> Seq<char>;

/// The text that `{:?}` formatting gives a turn event.
pub uninterp spec fn turn_event_debug(e: TurnEvent) -> Seq<char>;

/// The text that `{:?}` formatting gives a stack event.
pub uninterp spec fn stack_event_debug(e: StackEvent) -> Seq<char>;

/// The text that `{:?}` formatting gives a game state event.
pub uninterp spec fn game_state_event_debug(e: GameStateEvent) -> Seq<char>;

/// Formats a card event with `format!("{:?}", ..)`.
///
/// Trusted: the result is exactly the derived debug text of the event.
#[verifier::external_body]
fn card_event_text(e: &CardEvent) -> (s: String)
    ensures
        s@ == card_event_debug(*e),
{
    format!("{:?}", e)
}

/// Formats a player event with `format!("{:?}", ..)`.
///
/// Trusted: the result is exactly the derived debug text of the event.
#[verifier::external_body]
fn player_event_text(e: &PlayerEvent) -> (s: String)
    ensures
        s@ == player_event_debug(*e),
{
    format!("{:?}", e)
}

/// Formats a zone event with `format!("{:?}", ..)`.
///
/// Trusted: the result is exactly the derived debug text of the event.
#[verifier::external_body]
fn zone_event_text(e: &ZoneEvent) -> (s: String)
    ensures
        s@ == zone_event_debug(*e),
{
    format!("{:?}", e)
}

/// Formats a turn event with `format!("{:?}", ..)`.
///
/// Trusted: the result is exactly the derived debug text of the event.
#[verifier::external_body]
fn turn_event_text(e: &TurnEvent) -> (s: String)
    ensures
        s@ == turn_event_debug(*e),
{
    format!("{:?}", e)
}

/// Formats a stack event with `format!("{:?}", ..)`.
///
/// Trusted: the result is exactly the derived debug text of the event.
#[verifier::external_body]
fn stack_event_text(e: &StackEvent) -> (s: String)
    ensures
        s@ == stack_event_debug(*e),
{
    format!("{:?}", e)
}

/// Formats a game state event with `format!("{:?}", ..)`.
///
/// Trusted: the result is exactly the derived debug text of the event.
#[verifier::external_body]
fn game_state_event_text(e: &GameStateEvent) -> (s: String)
    ensures
        s@ == game_state_event_debug(*e),
{
    format!("{:?}", e)
}

/// One log line per card event: `CardEvent: ` and the event's debug text.
pub fn log_card_events(events: &Vec<CardEvent>) -> (logs: Vec<LogEvent>)
    ensures
        logs@.len() == events@.len(),
        forall|i: int| 0 <= i < events@.len() ==> #[trigger] logs@[i].message@ == "CardEvent: "@ + card_event_debug(events@[i]),
{
    let mut logs: Vec<LogEvent> = Vec::new();
    let mut i: usize = 0;
    while i < events.len()
        invariant
            i <= events@.len(),
            logs@.len() == i,
            forall|j: int| 0 <= j < i ==> #[trigger] logs@[j].message@ == "CardEvent: "@ + card_event_debug(events@[j]),
        decreases events@.len() - i,
    {
        let text = card_event_text(&events[i]);
        let message = String::from_str("CardEvent: ").concat(text.as_str());
        logs.push(LogEvent { message });
        i = i + 1;
    }
    logs
}

/// One log line per player event: `PlayerEvent: ` and the event's debug text.
pub fn log_player_events(events: &Vec<PlayerEvent>) -> (logs: Vec<LogEvent>)
    ensures
        logs@.len() == events@.len(),
        forall|i: int| 0 <= i < events@.len() ==> #[trigger] logs@[i].message@ == "PlayerEvent: "@ + player_event_debug(events@[i]),
{
    let mut logs: Vec<LogEvent> = Vec::new();
    let mut i: usize = 0;
    while i < events.len()
        invariant
            i <= events@.len(),
            logs@.len() == i,
            forall|j: int| 0 <= j < i ==> #[trigger] logs@[j].message@ == "PlayerEvent: "@ + player_event_debug(events@[j]),
        decreases events@.len() - i,
    {
        let text = player_event_text(&events[i]);
        let message = String::from_str("PlayerEvent: ").concat(text.as_str());
        logs.push(LogEvent { message });
        i = i + 1;
    }
    logs
}

/// One log line per zone event: `ZoneEvent: ` and the event's debug text.
pub fn log_zone_events(events: &Vec<ZoneEvent>) -> (logs: Vec<LogEvent>)
    ensures
        logs@.len() == events@.len(),
        forall|i: int| 0 <= i < events@.len() ==> #[trigger] logs@[i].message@ == "ZoneEvent: "@ + zone_event_debug(events@[i]),
{
    let mut logs: Vec<LogEvent> = Vec::new();
    let mut i: usize = 0;
    while i < events.len()
        invariant
            i <= events@.len(),
            logs@.len() == i,
            forall|j: int| 0 <= j < i ==> #[trigger] logs@[j].message@ == "ZoneEvent: "@ + zone_event_debug(events@[j]),
        decreases events@.len() - i,
    {
        let text = zone_event_text(&events[i]);
        let message = String::from_str("ZoneEvent: ").concat(text.as_str());
        logs.push(LogEvent { message });
        i = i + 1;
    }
    logs
}

/// One log line per turn event: `TurnEvent: ` and the event's debug text.
pub fn log_turn_events(events: &Vec<TurnEvent>) -> (logs: Vec<LogEvent>)
    ensures
        logs@.len() == events@.len(),
        forall|i: int| 0 <= i < events@.len() ==> #[trigger] logs@[i].message@ == "TurnEvent: "@ + turn_event_debug(events@[i]),
{
    let mut logs: Vec<LogEvent> = Vec::new();
    let mut i: usize = 0;
    while i < events.len()
        invariant
            i <= events@.len(),
            logs@.len() == i,
            forall|j: int| 0 <= j < i ==> #[trigger] logs@[j].message@ == "TurnEvent: "@ + turn_event_debug(events@[j]),
        decreases events@.len() - i,
    {
        let text = turn_event_text(&events[i]);
        let message = String::from_str("TurnEvent: ").concat(text.as_str());
        logs.push(LogEvent { message });
        i = i + 1;
    }
    logs
}

/// One log line per stack event: `StackEvent: ` and the event's debug text.
pub fn log_stack_events(events: &Vec<StackEvent>) -> (logs: Vec<LogEvent>)
    ensures
        logs@.len() == events@.len(),
        forall|i: int| 0 <= i < events@.len() ==> #[trigger] logs@[i].message@ == "StackEvent: "@ + stack_event_debug(events@[i]),
{
    let mut logs: Vec<LogEvent> = Vec::new();
    let mut i: usize = 0;
    while i < events.len()
        invariant
            i <= events@.len(),
            logs@.len() == i,
            forall|j: int| 0 <= j < i ==> #[trigger] logs@[j].message@ == "StackEvent: "@ + stack_event_debug(events@[j]),
        decreases events@.len() - i,
    {
        let text = stack_event_text(&events[i]);
        let message = String::from_str("StackEvent: ").concat(text.as_str());
        logs.push(LogEvent { message });
        i = i + 1;
    }
    logs
}

/// One log line per game state event: `GameStateEvent: ` and the event's
/// debug text.
pub fn log_game_state_events(events: &Vec<GameStateEvent>) -> (logs: Vec<LogEvent>)
    ensures
        logs@.len() == events@.len(),
        forall|i: int| 0 <= i < events@.len() ==> #[trigger] logs@[i].message@
            == "GameStateEvent: "@ + game_state_event_debug(events@[i]),
{
    let mut logs: Vec<LogEvent> = Vec::new();
    let mut i: usize = 0;
    while i < events.len()
        invariant
            i <= events@.len(),
            logs@.len() == i,
            forall|j: int| 0 <= j < i ==> #[trigger] logs@[j].message@ == "GameStateEvent: "@ + game_state_event_debug(events@[j]),
        decreases events@.len() - i,
    {
        let text = game_state_event_text(&events[i]);
        let message = String::from_str("GameStateEvent: ").concat(text.as_str());
        logs.push(LogEvent { message });
        i = i + 1;
    }
    logs
}

} // verus!
