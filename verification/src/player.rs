//! Drawing cards: players with cards to draw take the top card of their
//! library into their hand.

use vstd::prelude::*;
use crate::entity::{EntityId, EntityMap};
use crate::game::Player;

verus! {

/// A player's library; the top card is last.
pub struct LibraryZone {
    pub cards: Vec<EntityId>,
}

impl LibraryZone {
    /// Takes the top card, if any.
    pub fn draw_card(&mut self) -> (r: Option<EntityId>)
        ensures
            old(self).cards@.len() == 0 ==> r is None && final(self).cards@ == old(self).cards@,
            old(self).cards@.len() > 0 ==> r == Some(old(self).cards@.last())
                && final(self).cards@ == old(self).cards@.drop_last(),
    {
        self.cards.pop()
    }
}

/// A player's hand.
pub struct HandZone {
    pub cards: Vec<EntityId>,
}

impl HandZone {
    /// Puts a card in the hand.
    pub fn add_card(&mut self, card: EntityId)
        ensures
            final(self).cards@ == old(self).cards@.push(card),
    {
        self.cards.push(card);
    }
}

/// A player drew a card.
#[derive(Clone, Copy, PartialEq, Eq, Structural, Debug)]
pub struct DrawCardEvent {
    pub player_id: EntityId,
    pub card_id: EntityId,
}

/// A player entity with its state and the zone entities it owns.
pub struct PlayerEntry {
    pub entity: EntityId,
    pub player: Player,
    pub children: Vec<EntityId>,
}

/// The cards of each zone.
pub open spec fn library_cards(m: Map<EntityId, LibraryZone>) -> Map<EntityId, Seq<EntityId>> {
    Map::new(|k: EntityId| m.dom().contains(k), |k: EntityId| m[k].cards@)
}

/// The cards of each hand.
pub open spec fn hand_cards(m: Map<EntityId, HandZone>) -> Map<EntityId, Seq<EntityId>> {
    Map::new(|k: EntityId| m.dom().contains(k), |k: EntityId| m[k].cards@)
}

/// The last of `children` that is a key of `zones`.
pub open spec fn last_zone_child(children: Seq<EntityId>, zones: Map<EntityId, Seq<EntityId>>) -> Option<EntityId>
    decreases children.len(),
{
    if children.len() == 0 {
        None
    } else if zones.dom().contains(children.last()) {
        Some(children.last())
    } else {
        last_zone_child(children.drop_last(), zones)
    }
}

/// One player's draw: with cards to draw, a library and a hand among its
/// children and a card in that library, the top card moves to the hand and
/// the draw is announced.
pub open spec fn draw_one(
    libs: Map<EntityId, Seq<EntityId>>,
    hands: Map<EntityId, Seq<EntityId>>,
    p: PlayerEntry,
) -> (Map<EntityId, Seq<EntityId>>, Map<EntityId, Seq<EntityId>>, Option<DrawCardEvent>) {
    let l = last_zone_child(p.children@, libs);
    let h = last_zone_child(p.children@, hands);
    if p.player.cards_to_draw > 0 && l is Some && h is Some && libs[l->0].len() > 0 {
        let card = libs[l->0].last();
        (
            libs.insert(l->0, libs[l->0].drop_last()),
            hands.insert(h->0, hands[h->0].push(card)),
            Some(DrawCardEvent { player_id: p.entity, card_id: card }),
        )
    } else {
        (libs, hands, None)
    }
}

/// The draws of `players` in order: libraries, hands, the draws announced,
/// and for each player whether it drew.
pub open spec fn draw_all(
    libs: Map<EntityId, Seq<EntityId>>,
    hands: Map<EntityId, Seq<EntityId>>,
    players: Seq<PlayerEntry>,
) -> (Map<EntityId, Seq<EntityId>>, Map<EntityId, Seq<EntityId>>, Seq<DrawCardEvent>, Seq<bool>)
    decreases players.len(),
{
    if players.len() == 0 {
        (libs, hands, Seq::empty(), Seq::empty())
    } else {
        let prev = draw_all(libs, hands, players.drop_last());
        let step = draw_one(prev.0, prev.1, players.last());
        (
            step.0,
            step.1,
            match step.2 {
                Some(e) => prev.2.push(e),
                None => prev.2,
            },
            prev.3.push(step.2 is Some),
        )
    }
}

/// The draw flags hold one flag per player.
proof fn lemma_draw_all_len(libs: Map<EntityId, Seq<EntityId>>, hands: Map<EntityId, Seq<EntityId>>, players: Seq<PlayerEntry>)
    ensures
        draw_all(libs, hands, players).3.len() == players.len(),
    decreases players.len(),
{
    if players.len() > 0 {
        lemma_draw_all_len(libs, hands, players.drop_last());
    }
}

/// The last of `children` that is one of the zones.
fn find_zone_child(children: &Vec<EntityId>, zones: &EntityMap<LibraryZone>, hands: &EntityMap<HandZone>, library: bool) -> (r: Option<EntityId>)
    requires
        zones.wf(),
        hands.wf(),
    ensures
        library ==> r == last_zone_child(children@, library_cards(zones@)),
        !library ==> r == last_zone_child(children@, hand_cards(hands@)),
{
    let mut found: Option<EntityId> = None;
    let mut i: usize = 0;
    while i < children.len()
        invariant
            zones.wf(),
            hands.wf(),
            i <= children@.len(),
            library ==> found == last_zone_child(children@.take(i as int), library_cards(zones@)),
            !library ==> found == last_zone_child(children@.take(i as int), hand_cards(hands@)),
        decreases children@.len() - i,
    {
        proof {
            assert(children@.take(i + 1).drop_last() =~= children@.take(i as int));
            lemma_last_zone_child_push(children@.take(i as int), children@[i as int], library_cards(zones@));
            lemma_last_zone_child_push(children@.take(i as int), children@[i as int], hand_cards(hands@));
        }
        let is_zone = if library {
            zones.contains_key(children[i])
        } else {
            hands.contains_key(children[i])
        };
        if is_zone {
            found = Some(children[i]);
        }
        i = i + 1;
    }
    assert(children@.take(children@.len() as int) =~= children@);
    found
}

/// The zone found is one of the zones.
proof fn lemma_last_zone_child_in(s: Seq<EntityId>, zones: Map<EntityId, Seq<EntityId>>)
    ensures
        last_zone_child(s, zones) matches Some(x) ==> zones.dom().contains(x),
    decreases s.len(),
{
    if s.len() > 0 {
        lemma_last_zone_child_in(s.drop_last(), zones);
    }
}

/// Looking one child further.
proof fn lemma_last_zone_child_push(s: Seq<EntityId>, x: EntityId, zones: Map<EntityId, Seq<EntityId>>)
    ensures
        last_zone_child(s.push(x), zones) == if zones.dom().contains(x) {
            Some(x)
        } else {
            last_zone_child(s, zones)
        },
{
    assert(s.push(x).drop_last() =~= s);
}

/// Each player with cards to draw draws one card, in order: the top card of
/// its library (the last library among its children) goes to its hand (the
/// last hand among its children), it has one fewer card to draw, and the
/// draw is announced. A player without a library, a hand or a card in its
/// library draws nothing.
pub fn draw_card(
    players: &mut Vec<PlayerEntry>,
    libraries: &mut EntityMap<LibraryZone>,
    hands: &mut EntityMap<HandZone>,
) -> (drawn: Vec<DrawCardEvent>)
    requires
        old(libraries).wf(),
        old(hands).wf(),
    ensures
        final(libraries).wf(),
        final(hands).wf(),
        ({
            let r = draw_all(library_cards(old(libraries)@), hand_cards(old(hands)@), old(players)@);
            &&& library_cards(final(libraries)@) == r.0
            &&& hand_cards(final(hands)@) == r.1
            &&& drawn@ == r.2
            &&& final(players)@.len() == old(players)@.len()
            &&& forall|i: int| 0 <= i < old(players)@.len() ==> {
                let p = #[trigger] old(players)@[i];
                let q = final(players)@[i];
                &&& q.entity == p.entity
                &&& q.children == p.children
                &&& q.player.life == p.player.life
                &&& q.player.cards_to_draw == if r.3[i] {
                    (p.player.cards_to_draw - 1) as u32
                } else {
                    p.player.cards_to_draw
                }
            }
        }),
{
    let ghost l0 = library_cards(old(libraries)@);
    let ghost h0 = hand_cards(old(hands)@);
    let ghost ps = old(players)@;
    let mut drawn: Vec<DrawCardEvent> = Vec::new();
    let mut i: usize = 0;
    while i < players.len()
        invariant
            libraries.wf(),
            hands.wf(),
            players@.len() == ps.len(),
            i <= ps.len(),
            ({
                let r = draw_all(l0, h0, ps.take(i as int));
                &&& library_cards(libraries@) == r.0
                &&& hand_cards(hands@) == r.1
                &&& drawn@ == r.2
                &&& r.3.len() == i
                &&& forall|j: int| 0 <= j < i ==> {
                    let p = #[trigger] ps[j];
                    let q = players@[j];
                    &&& q.entity == p.entity
                    &&& q.children == p.children
                    &&& q.player.life == p.player.life
                    &&& q.player.cards_to_draw == if r.3[j] {
                        (p.player.cards_to_draw - 1) as u32
                    } else {
                        p.player.cards_to_draw
                    }
                }
            }),
            forall|j: int| i <= j < ps.len() ==> #[trigger] players@[j] == ps[j],
        decreases ps.len() - i,
    {
        let ghost prev = draw_all(l0, h0, ps.take(i as int));
        proof {
            assert(ps.take(i + 1).drop_last() =~= ps.take(i as int));
            assert(ps.take(i + 1).last() == ps[i as int]);
            lemma_draw_all_len(l0, h0, ps.take(i as int));
        }
        let ghost pl = players@[i as int];
        let to_draw = players[i].player.cards_to_draw;
        let player_id = players[i].entity;
        let lib = find_zone_child(&players[i].children, libraries, hands, true);
        let hand = find_zone_child(&players[i].children, libraries, hands, false);
        let mut did_draw = false;
        if to_draw > 0 {
            match (lib, hand) {
                (Some(l), Some(h)) => {
                    proof {
                                lemma_last_zone_child_in(pl.children@, library_cards(libraries@));
                                lemma_last_zone_child_in(pl.children@, hand_cards(hands@));
                                assert(library_cards(libraries@).dom().contains(l));
                                assert(hand_cards(hands@).dom().contains(h));
                    }
                    match libraries.find(l) {
                        Some(li) => {
                            proof {
                                crate::entity::lemma_key_index_unique(libraries.entries@, li as int);
                                assert(libraries@[l] == libraries.entries@[li as int].1);
                            }
                            if libraries.entries[li].1.cards.len() > 0 {
                                let mut zone = libraries.replace_at(li, LibraryZone { cards: Vec::new() });
                                let ghost zcards = zone.cards@;
                                let card = match zone.draw_card() {
                                    Some(c) => c,
                                    None => l,
                                };
                                assert(card == zcards.last());
                                let _ = libraries.replace_at(li, zone);
                                match hands.find(h) {
                                    Some(hi) => {
                                        proof {
                                            crate::entity::lemma_key_index_unique(hands.entries@, hi as int);
                                        }
                                        let mut hz = hands.replace_at(hi, HandZone { cards: Vec::new() });
                                        hz.add_card(card);
                                        let _ = hands.replace_at(hi, hz);
                                    },
                                    None => {},
                                }
                                let mut entry = players.remove(i);
                                entry.player.cards_to_draw = entry.player.cards_to_draw - 1;
                                players.insert(i, entry);
                                drawn.push(DrawCardEvent { player_id, card_id: card });
                                did_draw = true;
                            }
                        },
                        None => {},
                    }
                },
                _ => {},
            }
        }
        proof {
            let step = draw_one(prev.0, prev.1, pl);
            assert(did_draw == step.2 is Some);
            assert(library_cards(libraries@) =~= step.0);
            assert(hand_cards(hands@) =~= step.1);
        }
        i = i + 1;
    }
    assert(ps.take(ps.len() as int) =~= ps);
    drawn
}

} // verus!
