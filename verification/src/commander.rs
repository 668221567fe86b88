//! Commander rules: the command zone, commander tax, commander damage and
//! colour identity.

use vstd::prelude::*;
use crate::cards::{Card, CardTypes, ColorSet, ManaColor, Mana};
use crate::entity::{EntityId, EntityMap, first_index_of, placeholder_entity, vec_contains, vec_position, vec_push_unique};
use crate::game::{Zone, ZoneChangeEvent};
use crate::text::{contains_text, lowercase, lowercase_text, text_contains};

verus! {

/// Damage dealt by a source to a player or creature.
#[derive(Clone, Copy, PartialEq, Eq, Structural, Debug)]
pub struct CombatDamageEvent {
    /// The source of the damage (usually a creature)
    pub source: EntityId,
    /// The target of the damage (player or creature)
    pub target: EntityId,
    /// The amount of damage dealt
    pub damage: u32,
    /// Whether this is combat damage
    pub is_combat_damage: bool,
    /// Whether the source is a commander
    pub source_is_commander: bool,
}

/// A card that is some player's commander.
pub struct Commander {
    /// The player who owns this commander.
    pub owner: EntityId,
    /// How many times this commander has been cast from the command zone.
    pub cast_count: u32,
    /// Commander damage dealt to each player.
    pub damage_dealt: Vec<(EntityId, u32)>,
    /// The commander's colour identity.
    pub color_identity: ColorSet,
    pub is_partner: bool,
    pub is_background: bool,
    /// Players this commander has dealt combat damage to this turn (each once).
    pub dealt_combat_damage_this_turn: Vec<EntityId>,
}

impl Default for Commander {
    fn default() -> (c: Self)
        ensures
            c.owner.0 == 0x1_FFFF_FFFFu64,
            c.cast_count == 0,
            c.damage_dealt@.len() == 0,
            c.color_identity@ == Set::<ManaColor>::empty(),
            !c.is_partner,
            !c.is_background,
            c.dealt_combat_damage_this_turn@.len() == 0,
    {
        Commander {
            owner: placeholder_entity(),
            cast_count: 0,
            damage_dealt: Vec::new(),
            color_identity: ColorSet::empty(),
            is_partner: false,
            is_background: false,
            dealt_combat_damage_this_turn: Vec::new(),
        }
    }
}

/// Where a commander currently is.
#[derive(Clone, Copy, PartialEq, Eq, Structural, Debug)]
pub enum CommanderZoneLocation {
    CommandZone,
    Battlefield,
    Graveyard,
    Exile,
    Hand,
    Library,
    Stack,
}

/// Why a player was eliminated from the game.
#[derive(Clone, Copy, PartialEq, Eq, Structural, Debug)]
pub enum EliminationReason {
    /// Life total dropped to 0 or less.
    LifeLoss,
    /// Tried to draw from an empty library.
    EmptyLibrary,
    /// Took 21 or more combat damage from one commander (the commander is given).
    CommanderDamage(EntityId),
    /// Conceded.
    Concede,
    /// A card effect (the card is given).
    CardEffect(EntityId),
}

/// A player must choose whether their commander goes to the command zone.
#[derive(Clone, Copy, PartialEq, Eq, Structural, Debug)]
pub struct CommanderZoneChoiceEvent {
    pub commander: EntityId,
    pub owner: EntityId,
    pub current_zone: Zone,
    pub can_go_to_command_zone: bool,
}

/// A player was eliminated.
#[derive(Clone, Copy, PartialEq, Eq, Structural, Debug)]
pub struct PlayerEliminatedEvent {
    pub player: EntityId,
    pub reason: EliminationReason,
}

/// The zone after adding `card`: unchanged when it is there, else `card` last.
pub open spec fn zone_add(s: Seq<EntityId>, card: EntityId) -> Seq<EntityId> {
    if s.contains(card) {
        s
    } else {
        s.push(card)
    }
}

/// The zone after removing the first occurrence of `card`, if any.
pub open spec fn zone_remove(s: Seq<EntityId>, card: EntityId) -> Seq<EntityId> {
    match first_index_of(s, card) {
        Some(i) => s.remove(i as int),
        None => s,
    }
}

/// The command zone: the cards in it, each once.
pub struct CommandZone {
    pub cards: Vec<EntityId>,
}

impl CommandZone {
    /// No card occurs twice.
    pub open spec fn wf(&self) -> bool {
        self.cards@.no_duplicates()
    }

    /// A builder for a command zone.
    pub fn builder() -> (b: CommandZoneBuilder)
        ensures
            b.cards@.len() == 0,
    {
        CommandZoneBuilder::new()
    }

    /// Adds `card` unless it is already there.
    pub fn add_card(&mut self, card: EntityId)
        ensures
            final(self).cards@ == zone_add(old(self).cards@, card),
    {
        vec_push_unique(&mut self.cards, card);
    }

    /// Removes `card`; whether it was there.
    pub fn remove_card(&mut self, card: EntityId) -> (removed: bool)
        ensures
            removed == old(self).cards@.contains(card),
            final(self).cards@ == zone_remove(old(self).cards@, card),
    {
        match vec_position(&self.cards, card) {
            Some(i) => {
                self.cards.remove(i);
                true
            },
            None => false,
        }
    }

    /// Whether `card` is in the command zone.
    pub fn contains(&self, card: EntityId) -> (b: bool)
        ensures
            b == self.cards@.contains(card),
    {
        vec_contains(&self.cards, card)
    }
}

impl Default for CommandZone {
    fn default() -> (z: Self)
        ensures
            z.cards@.len() == 0,
    {
        CommandZone { cards: Vec::new() }
    }
}

/// Builds a command zone step by step.
pub struct CommandZoneBuilder {
    pub cards: Vec<EntityId>,
}

impl CommandZoneBuilder {
    /// An empty builder.
    pub fn new() -> (b: Self)
        ensures
            b.cards@.len() == 0,
    {
        CommandZoneBuilder { cards: Vec::new() }
    }

    /// Adds `card` unless it is already there.
    pub fn add_card(self, card: EntityId) -> (b: Self)
        ensures
            b.cards@ == zone_add(self.cards@, card),
    {
        let mut b = self;
        vec_push_unique(&mut b.cards, card);
        b
    }

    /// Replaces the cards.
    pub fn cards(self, cards: Vec<EntityId>) -> (b: Self)
        ensures
            b.cards@ == cards@,
    {
        CommandZoneBuilder { cards }
    }

    /// The command zone with the configured cards.
    pub fn build(self) -> (z: CommandZone)
        ensures
            z.cards@ == self.cards@,
    {
        CommandZone { cards: self.cards }
    }
}

impl Default for CommandZoneBuilder {
    fn default() -> (b: Self)
        ensures
            b.cards@.len() == 0,
    {
        CommandZoneBuilder::new()
    }
}

/// Adding keeps the zone free of duplicates, and the card is then in it.
pub proof fn law_zone_add_keeps_cards_unique(s: Seq<EntityId>, card: EntityId)
    requires
        s.no_duplicates(),
    ensures
        zone_add(s, card).no_duplicates(),
        zone_add(s, card).contains(card),
        forall|c: EntityId| s.contains(c) ==> #[trigger] zone_add(s, card).contains(c),
{
    if !s.contains(card) {
        let t = s.push(card);
        assert(t[s.len() as int] == card);
        assert forall|i: int, j: int| 0 <= i < t.len() && 0 <= j < t.len() && i != j implies t[i] != t[j] by {
            if i < s.len() && j < s.len() {
            } else if i < s.len() {
                assert(s[i] != card);
            } else {
                assert(s[j] != card);
            }
        }
        assert forall|c: EntityId| s.contains(c) implies #[trigger] zone_add(s, card).contains(c) by {
            let k = choose|k: int| 0 <= k < s.len() && s[k] == c;
            assert(t[k] == c);
        }
    }
}

/// Adding a card that is already there changes nothing.
pub proof fn law_zone_add_idempotent(s: Seq<EntityId>, card: EntityId)
    ensures
        zone_add(zone_add(s, card), card) == zone_add(s, card),
{
    if !s.contains(card) {
        assert(s.push(card)[s.len() as int] == card);
    }
}

/// In a zone without duplicates, removing a card leaves it out of the zone.
pub proof fn law_zone_remove_takes_card_out(s: Seq<EntityId>, card: EntityId)
    requires
        s.no_duplicates(),
    ensures
        !zone_remove(s, card).contains(card),
        zone_remove(s, card).no_duplicates(),
{
    match first_index_of(s, card) {
        Some(i) => {
            let t = s.remove(i as int);
            assert forall|k: int| 0 <= k < t.len() implies t[k] != card by {
                if k < i {
                    assert(s[k] != s[i as int]);
                } else {
                    assert(s[k + 1] != s[i as int]);
                }
            }
            assert forall|a: int, b: int| 0 <= a < t.len() && 0 <= b < t.len() && a != b implies t[a] != t[b] by {
                let a0 = if a < i { a } else { a + 1 };
                let b0 = if b < i { b } else { b + 1 };
                assert(s[a0] != s[b0]);
            }
        },
        None => {},
    }
}

/// Adding a card that was not there and then removing it restores the zone.
pub proof fn law_zone_remove_undoes_add(s: Seq<EntityId>, card: EntityId)
    requires
        !s.contains(card),
    ensures
        zone_remove(zone_add(s, card), card) == s,
{
    let t = s.push(card);
    assert(t[s.len() as int] == card);
    assert(t.contains(card));
    let i = first_index_of(t, card)->0;
    assert(i == s.len()) by {
        if i < s.len() {
            assert(s[i as int] == card);
        }
    }
    assert(t.remove(s.len() as int) =~= s);
}

/// The commanders listed in `entries`, list after list.
pub open spec fn commanders_of(entries: Seq<(EntityId, Vec<EntityId>)>) -> Seq<EntityId>
    decreases entries.len(),
{
    if entries.len() == 0 {
        Seq::empty()
    } else {
        commanders_of(entries.drop_last()) + entries.last().1@
    }
}

/// `m` with every key of `s` set to `v`.
pub open spec fn marked<V>(m: Map<EntityId, V>, s: Seq<EntityId>, v: V) -> Map<EntityId, V> {
    Map::new(|k: EntityId| m.dom().contains(k) || s.contains(k), |k: EntityId| if s.contains(k) { v } else { m[k] })
}

/// Marking one more key extends the marking.
proof fn lemma_marked_push<V>(m: Map<EntityId, V>, s: Seq<EntityId>, x: EntityId, v: V)
    ensures
        marked(m, s, v).insert(x, v) == marked(m, s.push(x), v),
{
    let t = s.push(x);
    assert forall|k: EntityId| #[trigger] t.contains(k) == (s.contains(k) || k == x) by {
        if s.contains(k) {
            let i = choose|i: int| 0 <= i < s.len() && s[i] == k;
            assert(t[i] == k);
        }
        if k == x {
            assert(t[s.len() as int] == k);
        }
        if t.contains(k) && k != x {
            let i = choose|i: int| 0 <= i < t.len() && t[i] == k;
            assert(s[i] == k);
        }
    }
    let a = marked(m, s, v).insert(x, v);
    let b = marked(m, t, v);
    assert forall|k: EntityId| #[trigger] a.dom().contains(k) == b.dom().contains(k) by {
        assert(t.contains(k) == (s.contains(k) || k == x));
    }
    assert forall|k: EntityId| a.dom().contains(k) implies #[trigger] a[k] == b[k] by {
        assert(t.contains(k) == (s.contains(k) || k == x));
    }
    assert(a =~= b);
}

/// The zone recorded for a commander; the command zone when none is.
pub open spec fn zone_of(m: Map<EntityId, CommanderZoneLocation>, c: EntityId) -> CommanderZoneLocation {
    if m.dom().contains(c) {
        m[c]
    } else {
        CommanderZoneLocation::CommandZone
    }
}

/// The number recorded for a commander; 0 when none is.
pub open spec fn count_of(m: Map<EntityId, u32>, c: EntityId) -> u32 {
    if m.dom().contains(c) {
        m[c]
    } else {
        0
    }
}

/// Which commanders each player has, where each commander is, how often each
/// has been cast, partnerships and colour identities.
pub struct CommandZoneManager {
    pub player_commanders: EntityMap<Vec<EntityId>>,
    pub commander_zone_status: EntityMap<CommanderZoneLocation>,
    pub zone_transition_count: EntityMap<u32>,
    pub commander_partners: EntityMap<EntityId>,
    pub commander_colors: EntityMap<ColorSet>,
}

impl CommandZoneManager {
    /// Every map is well formed.
    pub open spec fn wf(&self) -> bool {
        &&& self.player_commanders.wf()
        &&& self.commander_zone_status.wf()
        &&& self.zone_transition_count.wf()
        &&& self.commander_partners.wf()
        &&& self.commander_colors.wf()
    }

    /// A builder for a manager.
    pub fn builder() -> (b: CommandZoneManagerBuilder)
        ensures
            b.wf(),
            b.player_commanders@ == Map::<EntityId, Vec<EntityId>>::empty(),
            b.commander_zone_status@ == Map::<EntityId, CommanderZoneLocation>::empty(),
            b.zone_transition_count@ == Map::<EntityId, u32>::empty(),
            b.commander_partners@ == Map::<EntityId, EntityId>::empty(),
            b.commander_colors@ == Map::<EntityId, ColorSet>::empty(),
    {
        CommandZoneManagerBuilder::new()
    }

    /// Records each player's commanders; every listed commander starts in the
    /// command zone, never cast.
    pub fn initialize(&mut self, player_commanders: EntityMap<Vec<EntityId>>)
        requires
            old(self).wf(),
            player_commanders.wf(),
        ensures
            final(self).wf(),
            final(self).player_commanders == player_commanders,
            final(self).commander_zone_status@ == marked(
                old(self).commander_zone_status@,
                commanders_of(player_commanders.entries@),
                CommanderZoneLocation::CommandZone,
            ),
            final(self).zone_transition_count@ == marked(
                old(self).zone_transition_count@,
                commanders_of(player_commanders.entries@),
                0u32,
            ),
            final(self).commander_partners == old(self).commander_partners,
            final(self).commander_colors == old(self).commander_colors,
    {
        self.player_commanders = player_commanders;
        mark_in_command_zone(&self.player_commanders, &mut self.commander_zone_status, &mut self.zone_transition_count);
    }

    /// Sets a commander's colour identity.
    pub fn set_commander_color_identity(&mut self, commander: EntityId, color_identity: ColorSet)
        requires
            old(self).wf(),
        ensures
            final(self).wf(),
            final(self).commander_colors@ == old(self).commander_colors@.insert(commander, color_identity),
            final(self).player_commanders == old(self).player_commanders,
            final(self).commander_zone_status == old(self).commander_zone_status,
            final(self).zone_transition_count == old(self).zone_transition_count,
            final(self).commander_partners == old(self).commander_partners,
    {
        self.commander_colors.insert(commander, color_identity);
    }

    /// A player's commanders (none when the player has no entry).
    pub fn get_player_commanders(&self, player: EntityId) -> (r: Vec<EntityId>)
        requires
            self.wf(),
        ensures
            r@ == crate::entity::seq_at(self.player_commanders@, player),
    {
        match self.player_commanders.get(player) {
            Some(list) => crate::entity::copy_ids(list),
            None => Vec::new(),
        }
    }

    /// Where a commander is (the command zone when nothing is recorded).
    pub fn get_commander_zone(&self, commander: EntityId) -> (z: CommanderZoneLocation)
        requires
            self.wf(),
        ensures
            z == zone_of(self.commander_zone_status@, commander),
    {
        match self.commander_zone_status.get(commander) {
            Some(z) => *z,
            None => CommanderZoneLocation::CommandZone,
        }
    }

    /// How many times a commander has been cast (0 when nothing is recorded).
    pub fn get_cast_count(&self, commander: EntityId) -> (n: u32)
        requires
            self.wf(),
        ensures
            n == count_of(self.zone_transition_count@, commander),
    {
        match self.zone_transition_count.get(commander) {
            Some(n) => *n,
            None => 0,
        }
    }

    /// Records a commander's new zone; moving to the battlefield means it was
    /// cast, which raises its cast count by one.
    pub fn update_commander_zone(&mut self, commander: EntityId, new_zone: CommanderZoneLocation)
        requires
            old(self).wf(),
            new_zone == CommanderZoneLocation::Battlefield ==> count_of(old(self).zone_transition_count@, commander) < u32::MAX,
        ensures
            final(self).wf(),
            final(self).commander_zone_status@ == old(self).commander_zone_status@.insert(commander, new_zone),
            new_zone == CommanderZoneLocation::Battlefield ==> final(self).zone_transition_count@
                == old(self).zone_transition_count@.insert(commander, (count_of(old(self).zone_transition_count@, commander) + 1) as u32),
            new_zone != CommanderZoneLocation::Battlefield ==> final(self).zone_transition_count == old(self).zone_transition_count,
            count_of(final(self).zone_transition_count@, commander) == count_of(old(self).zone_transition_count@, commander)
                + if new_zone == CommanderZoneLocation::Battlefield { 1int } else { 0int },
            zone_of(final(self).commander_zone_status@, commander) == new_zone,
            final(self).player_commanders == old(self).player_commanders,
            final(self).commander_partners == old(self).commander_partners,
            final(self).commander_colors == old(self).commander_colors,
    {
        self.commander_zone_status.insert(commander, new_zone);
        if new_zone == CommanderZoneLocation::Battlefield {
            let current = self.get_cast_count(commander);
            self.zone_transition_count.insert(commander, current + 1);
        }
    }
}

impl Default for CommandZoneManager {
    fn default() -> (m: Self)
        ensures
            m.wf(),
            m.player_commanders@ == Map::<EntityId, Vec<EntityId>>::empty(),
            m.commander_zone_status@ == Map::<EntityId, CommanderZoneLocation>::empty(),
            m.zone_transition_count@ == Map::<EntityId, u32>::empty(),
            m.commander_partners@ == Map::<EntityId, EntityId>::empty(),
            m.commander_colors@ == Map::<EntityId, ColorSet>::empty(),
    {
        CommandZoneManager {
            player_commanders: EntityMap::new(),
            commander_zone_status: EntityMap::new(),
            zone_transition_count: EntityMap::new(),
            commander_partners: EntityMap::new(),
            commander_colors: EntityMap::new(),
        }
    }
}

/// Puts every commander listed in `pc` in the command zone with a cast count of 0.
fn mark_in_command_zone(
    pc: &EntityMap<Vec<EntityId>>,
    status: &mut EntityMap<CommanderZoneLocation>,
    count: &mut EntityMap<u32>,
)
    requires
        old(status).wf(),
        old(count).wf(),
    ensures
        final(status).wf(),
        final(count).wf(),
        final(status)@ == marked(old(status)@, commanders_of(pc.entries@), CommanderZoneLocation::CommandZone),
        final(count)@ == marked(old(count)@, commanders_of(pc.entries@), 0u32),
{
    let ghost entries = pc.entries@;
    let mut i: usize = 0;
    assert(marked(old(status)@, Seq::<EntityId>::empty(), CommanderZoneLocation::CommandZone) =~= old(status)@);
    assert(marked(old(count)@, Seq::<EntityId>::empty(), 0u32) =~= old(count)@);
    while i < pc.entries.len()
        invariant
            entries == pc.entries@,
            i <= entries.len(),
            status.wf(),
            count.wf(),
            status@ == marked(old(status)@, commanders_of(entries.take(i as int)), CommanderZoneLocation::CommandZone),
            count@ == marked(old(count)@, commanders_of(entries.take(i as int)), 0u32),
        decreases entries.len() - i,
    {
        let list = &pc.entries[i].1;
        let ghost before = commanders_of(entries.take(i as int));
        let mut j: usize = 0;
        while j < list.len()
            invariant
                status.wf(),
                count.wf(),
                j <= list@.len(),
                status@ == marked(old(status)@, before + list@.take(j as int), CommanderZoneLocation::CommandZone),
                count@ == marked(old(count)@, before + list@.take(j as int), 0u32),
            decreases list@.len() - j,
        {
            let c = list[j];
            status.insert(c, CommanderZoneLocation::CommandZone);
            count.insert(c, 0);
            proof {
                lemma_marked_push(old(status)@, before + list@.take(j as int), c, CommanderZoneLocation::CommandZone);
                lemma_marked_push(old(count)@, before + list@.take(j as int), c, 0u32);
                assert(before + list@.take(j + 1) =~= (before + list@.take(j as int)).push(c));
            }
            j = j + 1;
        }
        proof {
            assert(list@.take(list@.len() as int) =~= list@);
            assert(entries.take(i + 1).drop_last() =~= entries.take(i as int));
            assert(commanders_of(entries.take(i + 1)) == before + list@);
        }
        i = i + 1;
    }
    assert(entries.take(entries.len() as int) =~= entries);
}

/// Builds a command zone manager step by step.
pub struct CommandZoneManagerBuilder {
    pub player_commanders: EntityMap<Vec<EntityId>>,
    pub commander_zone_status: EntityMap<CommanderZoneLocation>,
    pub zone_transition_count: EntityMap<u32>,
    pub commander_partners: EntityMap<EntityId>,
    pub commander_colors: EntityMap<ColorSet>,
}

impl CommandZoneManagerBuilder {
    /// Every map is well formed.
    pub open spec fn wf(&self) -> bool {
        &&& self.player_commanders.wf()
        &&& self.commander_zone_status.wf()
        &&& self.zone_transition_count.wf()
        &&& self.commander_partners.wf()
        &&& self.commander_colors.wf()
    }

    /// An empty builder.
    pub fn new() -> (b: Self)
        ensures
            b.wf(),
            b.player_commanders@ == Map::<EntityId, Vec<EntityId>>::empty(),
            b.commander_zone_status@ == Map::<EntityId, CommanderZoneLocation>::empty(),
            b.zone_transition_count@ == Map::<EntityId, u32>::empty(),
            b.commander_partners@ == Map::<EntityId, EntityId>::empty(),
            b.commander_colors@ == Map::<EntityId, ColorSet>::empty(),
    {
        CommandZoneManagerBuilder {
            player_commanders: EntityMap::new(),
            commander_zone_status: EntityMap::new(),
            zone_transition_count: EntityMap::new(),
            commander_partners: EntityMap::new(),
            commander_colors: EntityMap::new(),
        }
    }

    /// Adds a commander to a player's list; it starts in the command zone,
    /// never cast.
    pub fn add_commander(self, player: EntityId, commander: EntityId) -> (b: Self)
        requires
            self.wf(),
        ensures
            b.wf(),
            b.player_commanders@.dom() == self.player_commanders@.dom().insert(player),
            b.player_commanders@[player]@ == crate::entity::seq_at(self.player_commanders@, player).push(commander),
            forall|k: EntityId| k != player && self.player_commanders@.dom().contains(k)
                ==> #[trigger] b.player_commanders@[k] == self.player_commanders@[k],
            b.commander_zone_status@ == self.commander_zone_status@.insert(commander, CommanderZoneLocation::CommandZone),
            b.zone_transition_count@ == self.zone_transition_count@.insert(commander, 0u32),
            b.commander_partners == self.commander_partners,
            b.commander_colors == self.commander_colors,
    {
        let mut b = self;
        b.player_commanders.push_to(player, commander);
        b.commander_zone_status.insert(commander, CommanderZoneLocation::CommandZone);
        b.zone_transition_count.insert(commander, 0);
        b
    }

    /// Sets every player's commanders at once; each listed commander starts in
    /// the command zone, never cast.
    pub fn player_commanders(self, player_commanders: EntityMap<Vec<EntityId>>) -> (b: Self)
        requires
            self.wf(),
            player_commanders.wf(),
        ensures
            b.wf(),
            b.player_commanders == player_commanders,
            b.commander_zone_status@ == marked(
                self.commander_zone_status@,
                commanders_of(player_commanders.entries@),
                CommanderZoneLocation::CommandZone,
            ),
            b.zone_transition_count@ == marked(self.zone_transition_count@, commanders_of(player_commanders.entries@), 0u32),
            b.commander_partners == self.commander_partners,
            b.commander_colors == self.commander_colors,
    {
        let mut b = self;
        b.player_commanders = player_commanders;
        mark_in_command_zone(&b.player_commanders, &mut b.commander_zone_status, &mut b.zone_transition_count);
        b
    }

    /// Sets a commander's zone.
    pub fn set_commander_zone(self, commander: EntityId, zone: CommanderZoneLocation) -> (b: Self)
        requires
            self.wf(),
        ensures
            b.wf(),
            b.commander_zone_status@ == self.commander_zone_status@.insert(commander, zone),
            b.player_commanders == self.player_commanders,
            b.zone_transition_count == self.zone_transition_count,
            b.commander_partners == self.commander_partners,
            b.commander_colors == self.commander_colors,
    {
        let mut b = self;
        b.commander_zone_status.insert(commander, zone);
        b
    }

    /// Sets a commander's cast count.
    pub fn set_transition_count(self, commander: EntityId, count: u32) -> (b: Self)
        requires
            self.wf(),
        ensures
            b.wf(),
            b.zone_transition_count@ == self.zone_transition_count@.insert(commander, count),
            b.player_commanders == self.player_commanders,
            b.commander_zone_status == self.commander_zone_status,
            b.commander_partners == self.commander_partners,
            b.commander_colors == self.commander_colors,
    {
        let mut b = self;
        b.zone_transition_count.insert(commander, count);
        b
    }

    /// Makes two commanders partners of each other.
    pub fn add_partner(self, commander1: EntityId, commander2: EntityId) -> (b: Self)
        requires
            self.wf(),
        ensures
            b.wf(),
            b.commander_partners@ == self.commander_partners@.insert(commander1, commander2).insert(commander2, commander1),
            b.player_commanders == self.player_commanders,
            b.commander_zone_status == self.commander_zone_status,
            b.zone_transition_count == self.zone_transition_count,
            b.commander_colors == self.commander_colors,
    {
        let mut b = self;
        b.commander_partners.insert(commander1, commander2);
        b.commander_partners.insert(commander2, commander1);
        b
    }

    /// Sets a commander's colour identity.
    pub fn set_color_identity(self, commander: EntityId, colors: ColorSet) -> (b: Self)
        requires
            self.wf(),
        ensures
            b.wf(),
            b.commander_colors@ == self.commander_colors@.insert(commander, colors),
            b.player_commanders == self.player_commanders,
            b.commander_zone_status == self.commander_zone_status,
            b.zone_transition_count == self.zone_transition_count,
            b.commander_partners == self.commander_partners,
    {
        let mut b = self;
        b.commander_colors.insert(commander, colors);
        b
    }

    /// The manager with the configured maps.
    pub fn build(self) -> (m: CommandZoneManager)
        ensures
            m.player_commanders == self.player_commanders,
            m.commander_zone_status == self.commander_zone_status,
            m.zone_transition_count == self.zone_transition_count,
            m.commander_partners == self.commander_partners,
            m.commander_colors == self.commander_colors,
    {
        CommandZoneManager {
            player_commanders: self.player_commanders,
            commander_zone_status: self.commander_zone_status,
            zone_transition_count: self.zone_transition_count,
            commander_partners: self.commander_partners,
            commander_colors: self.commander_colors,
        }
    }
}

impl Default for CommandZoneManagerBuilder {
    fn default() -> (b: Self)
        ensures
            b.wf(),
            b.player_commanders@ == Map::<EntityId, Vec<EntityId>>::empty(),
            b.commander_zone_status@ == Map::<EntityId, CommanderZoneLocation>::empty(),
            b.zone_transition_count@ == Map::<EntityId, u32>::empty(),
            b.commander_partners@ == Map::<EntityId, EntityId>::empty(),
            b.commander_colors@ == Map::<EntityId, ColorSet>::empty(),
    {
        CommandZoneManagerBuilder::new()
    }
}

/// Rules and constants of the Commander format.
pub struct CommanderRules;

/// Commander damage from one commander that eliminates a player.
pub const COMMANDER_DAMAGE_THRESHOLD: u32 = 21;

/// Players in a standard Commander game.
pub const STANDARD_PLAYER_COUNT: usize = 4;

/// Starting life total in Commander.
pub const STARTING_LIFE: i32 = 40;

/// The colours that appear in a mana cost.
pub open spec fn cost_colors(m: Mana) -> Set<ManaColor> {
    Set::new(
        |c: ManaColor|
            match c {
                ManaColor::White => m.white > 0,
                ManaColor::Blue => m.blue > 0,
                ManaColor::Black => m.black > 0,
                ManaColor::Red => m.red > 0,
                ManaColor::Green => m.green > 0,
            },
    )
}

/// The colours whose mana symbols (`{W}`, `{U}`, `{B}`, `{R}`, `{G}`) appear
/// in a rules text.
pub open spec fn text_colors(text: Seq<char>) -> Set<ManaColor> {
    Set::new(
        |c: ManaColor|
            match c {
                ManaColor::White => contains_text(text, "{W}"@),
                ManaColor::Blue => contains_text(text, "{U}"@),
                ManaColor::Black => contains_text(text, "{B}"@),
                ManaColor::Red => contains_text(text, "{R}"@),
                ManaColor::Green => contains_text(text, "{G}"@),
            },
    )
}

/// Some entry of `damage` records at least the threshold against `player`.
pub open spec fn lethal_entry(damage: Seq<(EntityId, u32)>, player: EntityId) -> bool {
    exists|i: int| 0 <= i < damage.len() && #[trigger] damage[i].0 == player && damage[i].1 >= COMMANDER_DAMAGE_THRESHOLD
}

/// A card may be a commander: a legendary creature, or a card whose rules
/// text (in lower case) says it can be your commander.
pub open spec fn may_be_commander(card: Card) -> bool {
    (card.types.has(CardTypes { bits: 16 }) && card.types.has(CardTypes { bits: 1 }))
        || contains_text(lowercase_text(card.rules_text@), "can be your commander"@)
}

impl CommanderRules {
    /// The commander tax: {2} for each earlier cast from the command zone.
    pub fn calculate_tax(cast_count: u32) -> (tax: u64)
        ensures
            tax == 2 * cast_count,
    {
        2u64 * cast_count as u64
    }

    /// Whether `commander` has dealt `player` at least 21 commander damage.
    pub fn check_commander_damage_elimination(commander: &Commander, player: EntityId) -> (b: bool)
        ensures
            b == lethal_entry(commander.damage_dealt@, player),
    {
        let mut i: usize = 0;
        while i < commander.damage_dealt.len()
            invariant
                i <= commander.damage_dealt@.len(),
                forall|j: int| 0 <= j < i ==> !(#[trigger] commander.damage_dealt@[j].0 == player
                    && commander.damage_dealt@[j].1 >= COMMANDER_DAMAGE_THRESHOLD),
            decreases commander.damage_dealt@.len() - i,
        {
            let (p, d) = commander.damage_dealt[i];
            if p == player && d >= COMMANDER_DAMAGE_THRESHOLD {
                return true;
            }
            i = i + 1;
        }
        false
    }

    /// Whether a card can be a commander.
    pub fn can_be_commander(card: &Card) -> (b: bool)
        ensures
            b == may_be_commander(*card),
    {
        if card.types.contains(CardTypes::legendary()) && card.types.contains(CardTypes::creature()) {
            return true;
        }
        let lower = lowercase(card.rules_text.as_str());
        text_contains(lower.as_str(), "can be your commander")
    }

    /// A card's colour identity: the colours of its mana cost and the
    /// colours whose mana symbols appear in its rules text.
    pub fn extract_color_identity(card: &Card) -> (colors: ColorSet)
        ensures
            colors@ == cost_colors(card.cost).union(text_colors(card.rules_text@)),
    {
        let text = card.rules_text.as_str();
        let colors = ColorSet {
            white: card.cost.white > 0 || text_contains(text, "{W}"),
            blue: card.cost.blue > 0 || text_contains(text, "{U}"),
            black: card.cost.black > 0 || text_contains(text, "{B}"),
            red: card.cost.red > 0 || text_contains(text, "{R}"),
            green: card.cost.green > 0 || text_contains(text, "{G}"),
        };
        assert(colors@ =~= cost_colors(card.cost).union(text_colors(card.rules_text@)));
        colors
    }
}

/// The command zone and the commander manager a game starts with.
pub fn setup_commander() -> (r: (CommandZone, CommandZoneManager))
    ensures
        r.0.cards@.len() == 0,
        r.1.wf(),
        r.1.player_commanders@ == Map::<EntityId, Vec<EntityId>>::empty(),
        r.1.commander_zone_status@ == Map::<EntityId, CommanderZoneLocation>::empty(),
        r.1.zone_transition_count@ == Map::<EntityId, u32>::empty(),
        r.1.commander_partners@ == Map::<EntityId, EntityId>::empty(),
        r.1.commander_colors@ == Map::<EntityId, ColorSet>::empty(),
{
    (CommandZone::default(), CommandZoneManager::default())
}

/// A commander's cost: its base cost plus the commander tax in generic mana.
pub fn calculate_commander_cost(commander: EntityId, base_cost: Mana, cmd_zone_manager: &CommandZoneManager) -> (cost: Mana)
    requires
        cmd_zone_manager.wf(),
        base_cost.colorless + 2 * count_of(cmd_zone_manager.zone_transition_count@, commander) <= u64::MAX,
    ensures
        cost == (Mana {
            colorless: (base_cost.colorless + 2 * count_of(cmd_zone_manager.zone_transition_count@, commander)) as u64,
            ..base_cost
        }),
{
    let mut cost = base_cost;
    let cast_count = cmd_zone_manager.get_cast_count(commander);
    cost.colorless = cost.colorless + CommanderRules::calculate_tax(cast_count);
    cost
}

/// The damage of the first entry of `damage` for `player`.
pub open spec fn first_entry(damage: Seq<(EntityId, u32)>, player: EntityId) -> Option<u32>
    decreases damage.len(),
{
    if damage.len() == 0 {
        None
    } else {
        match first_entry(damage.drop_last(), player) {
            Some(d) => Some(d),
            None => if damage.last().0 == player {
                Some(damage.last().1)
            } else {
                None
            },
        }
    }
}

/// The first commander (in order) whose first entry for `player` reaches
/// the threshold.
pub open spec fn first_lethal(commanders: Seq<(EntityId, Commander)>, player: EntityId) -> Option<EntityId>
    decreases commanders.len(),
{
    if commanders.len() == 0 {
        None
    } else {
        match first_lethal(commanders.drop_last(), player) {
            Some(o) => Some(o),
            None => match first_entry(commanders.last().1.damage_dealt@, player) {
                Some(d) => if d >= COMMANDER_DAMAGE_THRESHOLD {
                    Some(commanders.last().0)
                } else {
                    None
                },
                None => None,
            },
        }
    }
}

/// One elimination for each player (in order) that some commander has dealt
/// lethal commander damage.
pub open spec fn eliminations(commanders: Seq<(EntityId, Commander)>, players: Seq<EntityId>) -> Seq<PlayerEliminatedEvent>
    decreases players.len(),
{
    if players.len() == 0 {
        Seq::empty()
    } else {
        eliminations(commanders, players.drop_last()) + match first_lethal(commanders, players.last()) {
            Some(o) => seq![PlayerEliminatedEvent { player: players.last(), reason: EliminationReason::CommanderDamage(o) }],
            None => Seq::empty(),
        }
    }
}

/// The first entry of `damage` for `player`.
fn find_entry(damage: &Vec<(EntityId, u32)>, player: EntityId) -> (r: Option<u32>)
    ensures
        r == first_entry(damage@, player),
{
    let mut i: usize = 0;
    while i < damage.len()
        invariant
            i <= damage@.len(),
            first_entry(damage@.take(i as int), player) is None,
        decreases damage@.len() - i,
    {
        proof {
            assert(damage@.take(i + 1).drop_last() =~= damage@.take(i as int));
        }
        if damage[i].0 == player {
            proof {
                lemma_first_entry_prefix(damage@, player, i + 1);
            }
            return Some(damage[i].1);
        }
        i = i + 1;
    }
    assert(damage@.take(damage@.len() as int) =~= damage@);
    None
}

/// The first entry found in a prefix is the first entry of the whole.
proof fn lemma_first_entry_prefix(s: Seq<(EntityId, u32)>, p: EntityId, k: int)
    requires
        0 <= k <= s.len(),
        first_entry(s.take(k), p) is Some,
    ensures
        first_entry(s, p) == first_entry(s.take(k), p),
    decreases s.len(),
{
    if k == s.len() {
        assert(s.take(k) =~= s);
    } else {
        assert(s.drop_last().take(k) =~= s.take(k));
        lemma_first_entry_prefix(s.drop_last(), p, k);
    }
}

/// For each player, in order, the first commander (in order) whose recorded
/// damage against that player reaches 21 eliminates the player; the reason
/// names that commander.
pub fn check_commander_damage_loss(commanders: &Vec<(EntityId, Commander)>, players: &Vec<EntityId>) -> (out: Vec<PlayerEliminatedEvent>)
    ensures
        out@ == eliminations(commanders@, players@),
{
    let mut out: Vec<PlayerEliminatedEvent> = Vec::new();
    let mut i: usize = 0;
    while i < players.len()
        invariant
            i <= players@.len(),
            out@ == eliminations(commanders@, players@.take(i as int)),
        decreases players@.len() - i,
    {
        let p = players[i];
        proof {
            assert(players@.take(i + 1).drop_last() =~= players@.take(i as int));
        }
        let mut j: usize = 0;
        let mut found: Option<EntityId> = None;
        while j < commanders.len() && found.is_none()
            invariant
                j <= commanders@.len(),
                found is None ==> first_lethal(commanders@.take(j as int), p) is None,
                found is Some ==> first_lethal(commanders@, p) == found,
            decreases commanders@.len() - j,
        {
            proof {
                assert(commanders@.take(j + 1).drop_last() =~= commanders@.take(j as int));
            }
            match find_entry(&commanders[j].1.damage_dealt, p) {
                Some(d) => {
                    if d >= COMMANDER_DAMAGE_THRESHOLD {
                        found = Some(commanders[j].0);
                        proof {
                            lemma_first_lethal_prefix(commanders@, p, j + 1);
                        }
                    }
                },
                None => {},
            }
            j = j + 1;
        }
        proof {
            if found is None {
                assert(commanders@.take(commanders@.len() as int) =~= commanders@);
            }
        }
        match found {
            Some(o) => {
                out.push(PlayerEliminatedEvent { player: p, reason: EliminationReason::CommanderDamage(o) });
            },
            None => {},
        }
        proof {
            assert(out@ =~= eliminations(commanders@, players@.take(i + 1)));
        }
        i = i + 1;
    }
    assert(players@.take(players@.len() as int) =~= players@);
    out
}

/// The first lethal commander found in a prefix is the first of the whole.
proof fn lemma_first_lethal_prefix(s: Seq<(EntityId, Commander)>, p: EntityId, k: int)
    requires
        0 <= k <= s.len(),
        first_lethal(s.take(k), p) is Some,
    ensures
        first_lethal(s, p) == first_lethal(s.take(k), p),
    decreases s.len(),
{
    if k == s.len() {
        assert(s.take(k) =~= s);
    } else {
        assert(s.drop_last().take(k) =~= s.take(k));
        lemma_first_lethal_prefix(s.drop_last(), p, k);
    }
}

/// The event is commander combat damage that is recorded.
pub open spec fn counts_as_commander_damage(e: CombatDamageEvent) -> bool {
    e.source_is_commander && e.is_combat_damage && e.damage != 0
}

/// The position of the first entry of `damage` for `player`.
pub open spec fn entry_index(damage: Seq<(EntityId, u32)>, player: EntityId) -> Option<int>
    decreases damage.len(),
{
    if damage.len() == 0 {
        None
    } else {
        match entry_index(damage.drop_last(), player) {
            Some(i) => Some(i),
            None => if damage.last().0 == player {
                Some(damage.len() - 1)
            } else {
                None
            },
        }
    }
}

/// Adds `amount` to the first entry for `player`, or appends a new entry.
pub open spec fn add_entry(damage: Seq<(EntityId, u32)>, player: EntityId, amount: u32) -> Seq<(EntityId, u32)> {
    match entry_index(damage, player) {
        Some(i) => damage.update(i, (player, (damage[i].1 + amount) as u32)),
        None => damage.push((player, amount)),
    }
}

/// The damage record of commander `source` after the events `events`.
pub open spec fn dealt_after(damage: Seq<(EntityId, u32)>, source: EntityId, events: Seq<CombatDamageEvent>) -> Seq<(EntityId, u32)>
    decreases events.len(),
{
    if events.len() == 0 {
        damage
    } else {
        let prev = dealt_after(damage, source, events.drop_last());
        let e = events.last();
        if counts_as_commander_damage(e) && e.source == source {
            add_entry(prev, e.target, e.damage)
        } else {
            prev
        }
    }
}

/// The players hit this turn by commander `source` after the events `events`.
pub open spec fn hit_after(hit: Seq<EntityId>, source: EntityId, events: Seq<CombatDamageEvent>) -> Seq<EntityId>
    decreases events.len(),
{
    if events.len() == 0 {
        hit
    } else {
        let prev = hit_after(hit, source, events.drop_last());
        let e = events.last();
        if counts_as_commander_damage(e) && e.source == source {
            zone_add(prev, e.target)
        } else {
            prev
        }
    }
}

/// No total of commander `source` overflows while `events` are recorded.
pub open spec fn record_fits(damage: Seq<(EntityId, u32)>, source: EntityId, events: Seq<CombatDamageEvent>) -> bool
    decreases events.len(),
{
    if events.len() == 0 {
        true
    } else {
        let prev = dealt_after(damage, source, events.drop_last());
        let e = events.last();
        &&& record_fits(damage, source, events.drop_last())
        &&& (counts_as_commander_damage(e) && e.source == source) ==> match entry_index(prev, e.target) {
            Some(i) => prev[i].1 + e.damage <= u32::MAX,
            None => true,
        }
    }
}

/// The position of the first entry of `damage` for `player`.
fn find_entry_index(damage: &Vec<(EntityId, u32)>, player: EntityId) -> (r: Option<usize>)
    ensures
        match r {
            Some(i) => entry_index(damage@, player) == Some(i as int) && i < damage@.len(),
            None => entry_index(damage@, player) is None,
        },
{
    let mut i: usize = 0;
    while i < damage.len()
        invariant
            i <= damage@.len(),
            entry_index(damage@.take(i as int), player) is None,
        decreases damage@.len() - i,
    {
        proof {
            assert(damage@.take(i + 1).drop_last() =~= damage@.take(i as int));
        }
        if damage[i].0 == player {
            proof {
                lemma_entry_index_prefix(damage@, player, i + 1);
            }
            return Some(i);
        }
        i = i + 1;
    }
    assert(damage@.take(damage@.len() as int) =~= damage@);
    None
}

/// The first entry found in a prefix is the first entry of the whole.
proof fn lemma_entry_index_prefix(s: Seq<(EntityId, u32)>, p: EntityId, k: int)
    requires
        0 <= k <= s.len(),
        entry_index(s.take(k), p) is Some,
    ensures
        entry_index(s, p) == entry_index(s.take(k), p),
        0 <= entry_index(s, p)->0 < k,
        s[entry_index(s, p)->0].0 == p,
    decreases s.len(),
{
    if k == s.len() {
        assert(s.take(k) =~= s);
        lemma_entry_index_found(s, p);
    } else {
        assert(s.drop_last().take(k) =~= s.take(k));
        lemma_entry_index_prefix(s.drop_last(), p, k);
    }
}

/// A found entry lies in range and is for the player.
proof fn lemma_entry_index_found(s: Seq<(EntityId, u32)>, p: EntityId)
    requires
        entry_index(s, p) is Some,
    ensures
        0 <= entry_index(s, p)->0 < s.len(),
        s[entry_index(s, p)->0].0 == p,
    decreases s.len(),
{
    if entry_index(s.drop_last(), p) is Some {
        lemma_entry_index_found(s.drop_last(), p);
    }
}

/// Adds `amount` to the first entry for `player`, or appends a new entry.
pub(crate) fn add_damage_entry(damage: &mut Vec<(EntityId, u32)>, player: EntityId, amount: u32)
    requires
        match entry_index(old(damage)@, player) {
            Some(i) => old(damage)@[i].1 + amount <= u32::MAX,
            None => true,
        },
    ensures
        final(damage)@ == add_entry(old(damage)@, player, amount),
{
    match find_entry_index(damage, player) {
        Some(j) => {
            proof {
                lemma_entry_index_found(old(damage)@, player);
            }
            let (p, d) = damage[j];
            damage.set(j, (p, d + amount));
        },
        None => {
            damage.push((player, amount));
        },
    }
}

/// Records commander damage on one commander.
fn record_for(c: &mut Commander, source: EntityId, events: &Vec<CombatDamageEvent>)
    requires
        record_fits(old(c).damage_dealt@, source, events@),
    ensures
        final(c).damage_dealt@ == dealt_after(old(c).damage_dealt@, source, events@),
        final(c).dealt_combat_damage_this_turn@ == hit_after(old(c).dealt_combat_damage_this_turn@, source, events@),
        final(c).owner == old(c).owner,
        final(c).cast_count == old(c).cast_count,
        final(c).color_identity == old(c).color_identity,
        final(c).is_partner == old(c).is_partner,
        final(c).is_background == old(c).is_background,
{
    let mut i: usize = 0;
    while i < events.len()
        invariant
            i <= events@.len(),
            record_fits(old(c).damage_dealt@, source, events@),
            c.damage_dealt@ == dealt_after(old(c).damage_dealt@, source, events@.take(i as int)),
            c.dealt_combat_damage_this_turn@ == hit_after(old(c).dealt_combat_damage_this_turn@, source, events@.take(i as int)),
            c.owner == old(c).owner,
            c.cast_count == old(c).cast_count,
            c.color_identity == old(c).color_identity,
            c.is_partner == old(c).is_partner,
            c.is_background == old(c).is_background,
        decreases events@.len() - i,
    {
        let e = events[i];
        proof {
            assert(events@.take(i + 1).drop_last() =~= events@.take(i as int));
            lemma_record_fits_prefix(old(c).damage_dealt@, source, events@, i + 1);
        }
        if e.source_is_commander && e.is_combat_damage && e.damage != 0 && e.source == source {
            match find_entry_index(&c.damage_dealt, e.target) {
                Some(j) => {
                    let (p, d) = c.damage_dealt[j];
                    c.damage_dealt.set(j, (p, d + e.damage));
                },
                None => {
                    c.damage_dealt.push((e.target, e.damage));
                },
            }
            vec_push_unique(&mut c.dealt_combat_damage_this_turn, e.target);
            proof {
                if entry_index(dealt_after(old(c).damage_dealt@, source, events@.take(i as int)), e.target) is Some {
                    lemma_entry_index_found(dealt_after(old(c).damage_dealt@, source, events@.take(i as int)), e.target);
                }
            }
        }
        i = i + 1;
    }
    assert(events@.take(events@.len() as int) =~= events@);
}

/// A prefix of events that fit also fits.
proof fn lemma_record_fits_prefix(damage: Seq<(EntityId, u32)>, source: EntityId, events: Seq<CombatDamageEvent>, k: int)
    requires
        record_fits(damage, source, events),
        0 <= k <= events.len(),
    ensures
        record_fits(damage, source, events.take(k)),
    decreases events.len(),
{
    if k == events.len() {
        assert(events.take(k) =~= events);
    } else {
        assert(events.drop_last().take(k) =~= events.take(k));
        lemma_record_fits_prefix(damage, source, events.drop_last(), k);
    }
}

/// Records commander combat damage: each event whose source is a commander
/// adds its damage to that commander's entry for the target (or starts one)
/// and notes the target as hit this turn. Events that are not commander
/// combat damage, or deal no damage, are skipped.
pub fn record_commander_damage(commanders: &mut EntityMap<Commander>, events: &Vec<CombatDamageEvent>)
    requires
        old(commanders).wf(),
        forall|k: EntityId| #[trigger] old(commanders)@.dom().contains(k)
            ==> record_fits(old(commanders)@[k].damage_dealt@, k, events@),
    ensures
        final(commanders).wf(),
        final(commanders).key_seq() == old(commanders).key_seq(),
        final(commanders)@.dom() == old(commanders)@.dom(),
        forall|k: EntityId| #[trigger] old(commanders)@.dom().contains(k) ==> {
            let before = old(commanders)@[k];
            let after = final(commanders)@[k];
            &&& after.damage_dealt@ == dealt_after(before.damage_dealt@, k, events@)
            &&& after.dealt_combat_damage_this_turn@ == hit_after(before.dealt_combat_damage_this_turn@, k, events@)
            &&& after.owner == before.owner
            &&& after.cast_count == before.cast_count
            &&& after.color_identity == before.color_identity
            &&& after.is_partner == before.is_partner
            &&& after.is_background == before.is_background
        },
{
    let ghost m0 = old(commanders)@;
    let ghost entries0 = old(commanders).entries@;
    let mut i: usize = 0;
    while i < commanders.entries.len()
        invariant
            commanders.wf(),
            commanders.key_seq() == old(commanders).key_seq(),
            commanders.entries@.len() == entries0.len(),
            i <= entries0.len(),
            forall|j: int| 0 <= j < entries0.len() ==> #[trigger] commanders.entries@[j].0 == entries0[j].0,
            forall|j: int| i <= j < entries0.len() ==> #[trigger] commanders.entries@[j] == entries0[j],
            forall|k: EntityId| #[trigger] m0.dom().contains(k)
                ==> record_fits(m0[k].damage_dealt@, k, events@),
            commanders@.dom() == m0.dom(),
            forall|j: int| 0 <= j < i ==> {
                let before = #[trigger] entries0[j].1;
                let after = commanders.entries@[j].1;
                &&& after.damage_dealt@ == dealt_after(before.damage_dealt@, entries0[j].0, events@)
                &&& after.dealt_combat_damage_this_turn@ == hit_after(before.dealt_combat_damage_this_turn@, entries0[j].0, events@)
                &&& after.owner == before.owner
                &&& after.cast_count == before.cast_count
                &&& after.color_identity == before.color_identity
                &&& after.is_partner == before.is_partner
                &&& after.is_background == before.is_background
            },
            old(commanders).wf(),
            entries0 == old(commanders).entries@,
            m0 == old(commanders)@,
        decreases entries0.len() - i,
    {
        let k = commanders.entries[i].0;
        let blank = Commander {
            owner: k,
            cast_count: 0,
            damage_dealt: Vec::new(),
            color_identity: ColorSet::empty(),
            is_partner: false,
            is_background: false,
            dealt_combat_damage_this_turn: Vec::new(),
        };
        proof {
            crate::entity::lemma_key_index_unique(entries0, i as int);
            assert(m0.dom().contains(k));
        }
        let mut c = commanders.replace_at(i, blank);
        record_for(&mut c, k, events);
        commanders.replace_at(i, c);
        i = i + 1;
    }
    proof {
        assert forall|k: EntityId| #[trigger] m0.dom().contains(k) implies {
            let before = m0[k];
            let after = commanders@[k];
            &&& after.damage_dealt@ == dealt_after(before.damage_dealt@, k, events@)
            &&& after.dealt_combat_damage_this_turn@ == hit_after(before.dealt_combat_damage_this_turn@, k, events@)
            &&& after.owner == before.owner
            &&& after.cast_count == before.cast_count
            &&& after.color_identity == before.color_identity
            &&& after.is_partner == before.is_partner
            &&& after.is_background == before.is_background
        } by {
            let j = crate::entity::seq_key_index(entries0, k);
            crate::entity::lemma_key_index_unique(entries0, j);
            crate::entity::lemma_key_index_unique(commanders.entries@, j);
            let _ = entries0[j].1;
        }
    }
}

/// The commander location that corresponds to a zone.
pub open spec fn location_of(z: Zone) -> CommanderZoneLocation {
    match z {
        Zone::CommandZone => CommanderZoneLocation::CommandZone,
        Zone::Battlefield => CommanderZoneLocation::Battlefield,
        Zone::Graveyard => CommanderZoneLocation::Graveyard,
        Zone::Exile => CommanderZoneLocation::Exile,
        Zone::Hand => CommanderZoneLocation::Hand,
        Zone::Library => CommanderZoneLocation::Library,
        Zone::Stack => CommanderZoneLocation::Stack,
    }
}

/// The commander location that corresponds to a zone.
fn zone_location(z: Zone) -> (l: CommanderZoneLocation)
    ensures
        l == location_of(z),
{
    match z {
        Zone::CommandZone => CommanderZoneLocation::CommandZone,
        Zone::Battlefield => CommanderZoneLocation::Battlefield,
        Zone::Graveyard => CommanderZoneLocation::Graveyard,
        Zone::Exile => CommanderZoneLocation::Exile,
        Zone::Hand => CommanderZoneLocation::Hand,
        Zone::Library => CommanderZoneLocation::Library,
        Zone::Stack => CommanderZoneLocation::Stack,
    }
}

/// A commander dying or being exiled from the battlefield or the stack lets
/// its owner choose the command zone instead.
pub open spec fn offers_command_zone(e: ZoneChangeEvent) -> bool {
    (e.destination == Zone::Graveyard || e.destination == Zone::Exile)
        && (e.source == Zone::Battlefield || e.source == Zone::Stack)
}

/// Where commanders are after the moves `events` (cards that are not
/// commanders are ignored).
pub open spec fn status_after_moves(
    status: Map<EntityId, CommanderZoneLocation>,
    commanders: Set<EntityId>,
    events: Seq<ZoneChangeEvent>,
) -> Map<EntityId, CommanderZoneLocation>
    decreases events.len(),
{
    if events.len() == 0 {
        status
    } else {
        let prev = status_after_moves(status, commanders, events.drop_last());
        let e = events.last();
        if commanders.contains(e.card) {
            prev.insert(e.card, location_of(e.destination))
        } else {
            prev
        }
    }
}

/// Cast counts after the moves `events`: each move of a commander to the
/// battlefield counts one cast.
pub open spec fn counts_after_moves(
    counts: Map<EntityId, u32>,
    commanders: Set<EntityId>,
    events: Seq<ZoneChangeEvent>,
) -> Map<EntityId, u32>
    decreases events.len(),
{
    if events.len() == 0 {
        counts
    } else {
        let prev = counts_after_moves(counts, commanders, events.drop_last());
        let e = events.last();
        if commanders.contains(e.card) && e.destination == Zone::Battlefield {
            prev.insert(e.card, (count_of(prev, e.card) + 1) as u32)
        } else {
            prev
        }
    }
}

/// No cast count overflows during the moves `events`.
pub open spec fn moves_fit(counts: Map<EntityId, u32>, commanders: Set<EntityId>, events: Seq<ZoneChangeEvent>) -> bool
    decreases events.len(),
{
    if events.len() == 0 {
        true
    } else {
        let prev = counts_after_moves(counts, commanders, events.drop_last());
        let e = events.last();
        &&& moves_fit(counts, commanders, events.drop_last())
        &&& (commanders.contains(e.card) && e.destination == Zone::Battlefield) ==> count_of(prev, e.card) < u32::MAX
    }
}

/// The command zone choices offered for the moves `events`.
pub open spec fn choices_for(commanders: Map<EntityId, Commander>, events: Seq<ZoneChangeEvent>) -> Seq<CommanderZoneChoiceEvent>
    decreases events.len(),
{
    if events.len() == 0 {
        Seq::empty()
    } else {
        let e = events.last();
        choices_for(commanders, events.drop_last()) + if commanders.dom().contains(e.card) && offers_command_zone(e) {
            seq![CommanderZoneChoiceEvent {
                commander: e.card,
                owner: commanders[e.card].owner,
                current_zone: e.destination,
                can_go_to_command_zone: true,
            }]
        } else {
            Seq::empty()
        }
    }
}

/// A prefix of moves that fit also fits.
proof fn lemma_moves_fit_prefix(counts: Map<EntityId, u32>, commanders: Set<EntityId>, events: Seq<ZoneChangeEvent>, k: int)
    requires
        moves_fit(counts, commanders, events),
        0 <= k <= events.len(),
    ensures
        moves_fit(counts, commanders, events.take(k)),
    decreases events.len(),
{
    if k == events.len() {
        assert(events.take(k) =~= events);
    } else {
        assert(events.drop_last().take(k) =~= events.take(k));
        lemma_moves_fit_prefix(counts, commanders, events.drop_last(), k);
    }
}

/// Follows commanders from zone to zone: each move of a commander records
/// its new zone (a move to the battlefield counts as a cast), and a commander
/// that dies or is exiled from the battlefield or the stack offers its owner
/// the command zone instead.
pub fn handle_commander_zone_change(
    cmd_zone_manager: &mut CommandZoneManager,
    events: &Vec<ZoneChangeEvent>,
    commanders: &EntityMap<Commander>,
) -> (choices: Vec<CommanderZoneChoiceEvent>)
    requires
        old(cmd_zone_manager).wf(),
        commanders.wf(),
        moves_fit(old(cmd_zone_manager).zone_transition_count@, commanders@.dom(), events@),
    ensures
        final(cmd_zone_manager).wf(),
        final(cmd_zone_manager).commander_zone_status@
            == status_after_moves(old(cmd_zone_manager).commander_zone_status@, commanders@.dom(), events@),
        final(cmd_zone_manager).zone_transition_count@
            == counts_after_moves(old(cmd_zone_manager).zone_transition_count@, commanders@.dom(), events@),
        final(cmd_zone_manager).player_commanders == old(cmd_zone_manager).player_commanders,
        final(cmd_zone_manager).commander_partners == old(cmd_zone_manager).commander_partners,
        final(cmd_zone_manager).commander_colors == old(cmd_zone_manager).commander_colors,
        choices@ == choices_for(commanders@, events@),
{
    let ghost cmds = commanders@.dom();
    let mut choices: Vec<CommanderZoneChoiceEvent> = Vec::new();
    let mut i: usize = 0;
    while i < events.len()
        invariant
            commanders.wf(),
            cmds == commanders@.dom(),
            moves_fit(old(cmd_zone_manager).zone_transition_count@, cmds, events@),
            cmd_zone_manager.wf(),
            i <= events@.len(),
            cmd_zone_manager.commander_zone_status@
                == status_after_moves(old(cmd_zone_manager).commander_zone_status@, cmds, events@.take(i as int)),
            cmd_zone_manager.zone_transition_count@
                == counts_after_moves(old(cmd_zone_manager).zone_transition_count@, cmds, events@.take(i as int)),
            cmd_zone_manager.player_commanders == old(cmd_zone_manager).player_commanders,
            cmd_zone_manager.commander_partners == old(cmd_zone_manager).commander_partners,
            cmd_zone_manager.commander_colors == old(cmd_zone_manager).commander_colors,
            choices@ == choices_for(commanders@, events@.take(i as int)),
        decreases events@.len() - i,
    {
        let e = events[i];
        proof {
            assert(events@.take(i + 1).drop_last() =~= events@.take(i as int));
            lemma_moves_fit_prefix(old(cmd_zone_manager).zone_transition_count@, cmds, events@, i + 1);
        }
        match commanders.get(e.card) {
            Some(commander) => {
                let new_zone = zone_location(e.destination);
                cmd_zone_manager.update_commander_zone(e.card, new_zone);
                let dies = (e.destination == Zone::Graveyard || e.destination == Zone::Exile)
                    && (e.source == Zone::Battlefield || e.source == Zone::Stack);
                if dies {
                    choices.push(
                        CommanderZoneChoiceEvent {
                            commander: e.card,
                            owner: commander.owner,
                            current_zone: e.destination,
                            can_go_to_command_zone: true,
                        },
                    );
                }
            },
            None => {},
        }
        proof {
            assert(choices@ =~= choices_for(commanders@, events@.take(i + 1)));
        }
        i = i + 1;
    }
    assert(events@.take(events@.len() as int) =~= events@);
    choices
}

/// Where commanders are after the choices `events`: each accepted choice
/// puts the commander in the command zone.
pub open spec fn status_after_choices(
    status: Map<EntityId, CommanderZoneLocation>,
    events: Seq<CommanderZoneChoiceEvent>,
) -> Map<EntityId, CommanderZoneLocation>
    decreases events.len(),
{
    if events.len() == 0 {
        status
    } else {
        let prev = status_after_choices(status, events.drop_last());
        if events.last().can_go_to_command_zone {
            prev.insert(events.last().commander, CommanderZoneLocation::CommandZone)
        } else {
            prev
        }
    }
}

/// Zone transition counts after the choices `events`: each accepted choice
/// counts one more transition.
pub open spec fn counts_after_choices(counts: Map<EntityId, u32>, events: Seq<CommanderZoneChoiceEvent>) -> Map<EntityId, u32>
    decreases events.len(),
{
    if events.len() == 0 {
        counts
    } else {
        let prev = counts_after_choices(counts, events.drop_last());
        let e = events.last();
        if e.can_go_to_command_zone {
            prev.insert(e.commander, (count_of(prev, e.commander) + 1) as u32)
        } else {
            prev
        }
    }
}

/// No count overflows during the choices `events`.
pub open spec fn choices_fit(counts: Map<EntityId, u32>, events: Seq<CommanderZoneChoiceEvent>) -> bool
    decreases events.len(),
{
    if events.len() == 0 {
        true
    } else {
        let prev = counts_after_choices(counts, events.drop_last());
        &&& choices_fit(counts, events.drop_last())
        &&& events.last().can_go_to_command_zone ==> count_of(prev, events.last().commander) < u32::MAX
    }
}

/// A prefix of choices that fit also fits.
proof fn lemma_choices_fit_prefix(counts: Map<EntityId, u32>, events: Seq<CommanderZoneChoiceEvent>, k: int)
    requires
        choices_fit(counts, events),
        0 <= k <= events.len(),
    ensures
        choices_fit(counts, events.take(k)),
    decreases events.len(),
{
    if k == events.len() {
        assert(events.take(k) =~= events);
    } else {
        assert(events.drop_last().take(k) =~= events.take(k));
        lemma_choices_fit_prefix(counts, events.drop_last(), k);
    }
}

/// The moves to the command zone that the accepted choices ask for.
pub open spec fn moves_for_choices(events: Seq<CommanderZoneChoiceEvent>) -> Seq<ZoneChangeEvent>
    decreases events.len(),
{
    if events.len() == 0 {
        Seq::empty()
    } else {
        let e = events.last();
        moves_for_choices(events.drop_last()) + if e.can_go_to_command_zone {
            seq![ZoneChangeEvent { card: e.commander, owner: e.owner, source: e.current_zone, destination: Zone::CommandZone }]
        } else {
            Seq::empty()
        }
    }
}

/// Carries out the command zone choices: each commander that may go to the
/// command zone is moved there (the moves are returned for the zone
/// manager), its zone is recorded and its transition count rises by one.
pub fn process_commander_zone_choices(
    cmd_zone_manager: &mut CommandZoneManager,
    events: &Vec<CommanderZoneChoiceEvent>,
) -> (moves: Vec<ZoneChangeEvent>)
    requires
        old(cmd_zone_manager).wf(),
        choices_fit(old(cmd_zone_manager).zone_transition_count@, events@),
    ensures
        final(cmd_zone_manager).wf(),
        final(cmd_zone_manager).commander_zone_status@
            == status_after_choices(old(cmd_zone_manager).commander_zone_status@, events@),
        final(cmd_zone_manager).zone_transition_count@
            == counts_after_choices(old(cmd_zone_manager).zone_transition_count@, events@),
        final(cmd_zone_manager).player_commanders == old(cmd_zone_manager).player_commanders,
        final(cmd_zone_manager).commander_partners == old(cmd_zone_manager).commander_partners,
        final(cmd_zone_manager).commander_colors == old(cmd_zone_manager).commander_colors,
        moves@ == moves_for_choices(events@),
{
    let mut moves: Vec<ZoneChangeEvent> = Vec::new();
    let mut i: usize = 0;
    while i < events.len()
        invariant
            choices_fit(old(cmd_zone_manager).zone_transition_count@, events@),
            cmd_zone_manager.wf(),
            i <= events@.len(),
            cmd_zone_manager.commander_zone_status@
                == status_after_choices(old(cmd_zone_manager).commander_zone_status@, events@.take(i as int)),
            cmd_zone_manager.zone_transition_count@
                == counts_after_choices(old(cmd_zone_manager).zone_transition_count@, events@.take(i as int)),
            cmd_zone_manager.player_commanders == old(cmd_zone_manager).player_commanders,
            cmd_zone_manager.commander_partners == old(cmd_zone_manager).commander_partners,
            cmd_zone_manager.commander_colors == old(cmd_zone_manager).commander_colors,
            moves@ == moves_for_choices(events@.take(i as int)),
        decreases events@.len() - i,
    {
        let e = events[i];
        proof {
            assert(events@.take(i + 1).drop_last() =~= events@.take(i as int));
            lemma_choices_fit_prefix(old(cmd_zone_manager).zone_transition_count@, events@, i + 1);
        }
        if e.can_go_to_command_zone {
            moves.push(ZoneChangeEvent { card: e.commander, owner: e.owner, source: e.current_zone, destination: Zone::CommandZone });
            cmd_zone_manager.update_commander_zone(e.commander, CommanderZoneLocation::CommandZone);
            let count = cmd_zone_manager.get_cast_count(e.commander);
            cmd_zone_manager.zone_transition_count.insert(e.commander, count + 1);
        }
        proof {
            assert(moves@ =~= moves_for_choices(events@.take(i + 1)));
        }
        i = i + 1;
    }
    assert(events@.take(events@.len() as int) =~= events@);
    moves
}

/// The colour identity of a card: the colours of its mana cost and of the
/// mana symbols in its rules text.
pub open spec fn card_identity(c: Card) -> Set<ManaColor> {
    cost_colors(c.cost).union(text_colors(c.rules_text@))
}

/// The combined colour identity of `commanders`: the colours recorded for
/// each of them (a commander without recorded colours adds none).
pub open spec fn combined_identity(colors: Map<EntityId, ColorSet>, commanders: Seq<EntityId>) -> Set<ManaColor>
    decreases commanders.len(),
{
    if commanders.len() == 0 {
        Set::empty()
    } else {
        combined_identity(colors, commanders.drop_last()).union(
            if colors.dom().contains(commanders.last()) { colors[commanders.last()]@ } else { Set::empty() },
        )
    }
}

/// The cards of `deck` whose colour identity is not within `identity`, in
/// deck order.
pub open spec fn off_identity_cards(deck: Seq<(EntityId, Card)>, identity: Set<ManaColor>) -> Seq<EntityId>
    decreases deck.len(),
{
    if deck.len() == 0 {
        Seq::empty()
    } else {
        off_identity_cards(deck.drop_last(), identity) + if card_identity(deck.last().1).subset_of(identity) {
            Seq::empty()
        } else {
            seq![deck.last().0]
        }
    }
}

/// The players of `players` that have at least one commander.
pub open spec fn players_with_commanders(players: Seq<EntityId>, commanders: Map<EntityId, Vec<EntityId>>) -> Set<EntityId> {
    players.to_set().filter(|p: EntityId| crate::entity::seq_at(commanders, p).len() > 0)
}

/// The problems found in the deck of `player`: the cards outside the combined
/// colour identity of the player's commanders.
pub open spec fn deck_problems(
    manager: CommandZoneManager,
    decks: Map<EntityId, Vec<(EntityId, Card)>>,
    player: EntityId,
) -> Seq<EntityId> {
    off_identity_cards(
        crate::entity::seq_at(decks, player),
        combined_identity(manager.commander_colors@, crate::entity::seq_at(manager.player_commanders@, player)),
    )
}

/// Whether every colour of `a` is in `b`.
fn within(a: &ColorSet, b: &ColorSet) -> (r: bool)
    ensures
        r == a@.subset_of(b@),
{
    let r = (!a.white || b.white) && (!a.blue || b.blue) && (!a.black || b.black) && (!a.red || b.red) && (!a.green
        || b.green);
    proof {
        if !r {
            if a.white && !b.white {
                assert(a@.contains(ManaColor::White));
            } else if a.blue && !b.blue {
                assert(a@.contains(ManaColor::Blue));
            } else if a.black && !b.black {
                assert(a@.contains(ManaColor::Black));
            } else if a.red && !b.red {
                assert(a@.contains(ManaColor::Red));
            } else {
                assert(a@.contains(ManaColor::Green));
            }
        } else {
            assert forall|c: ManaColor| a@.contains(c) implies b@.contains(c) by {
                match c {
                    ManaColor::White => {},
                    ManaColor::Blue => {},
                    ManaColor::Black => {},
                    ManaColor::Red => {},
                    ManaColor::Green => {},
                }
            }
        }
    }
    r
}

/// The combined colour identity of `commanders`.
fn commanders_identity(colors: &EntityMap<ColorSet>, commanders: &Vec<EntityId>) -> (r: ColorSet)
    requires
        colors.wf(),
    ensures
        r@ == combined_identity(colors@, commanders@),
{
    let mut identity = ColorSet::empty();
    let mut i: usize = 0;
    while i < commanders.len()
        invariant
            colors.wf(),
            i <= commanders@.len(),
            identity@ == combined_identity(colors@, commanders@.take(i as int)),
        decreases commanders@.len() - i,
    {
        proof {
            assert(commanders@.take(i + 1).drop_last() =~= commanders@.take(i as int));
        }
        match colors.get(commanders[i]) {
            Some(c) => {
                identity.extend(c);
            },
            None => {
                assert(identity@.union(Set::<ManaColor>::empty()) =~= identity@);
            },
        }
        i = i + 1;
    }
    assert(commanders@.take(commanders@.len() as int) =~= commanders@);
    identity
}

/// The cards of `deck` outside `identity`.
fn cards_off_identity(deck: &Vec<(EntityId, Card)>, identity: &ColorSet) -> (r: Vec<EntityId>)
    ensures
        r@ == off_identity_cards(deck@, identity@),
{
    let mut out: Vec<EntityId> = Vec::new();
    let mut i: usize = 0;
    while i < deck.len()
        invariant
            i <= deck@.len(),
            out@ == off_identity_cards(deck@.take(i as int), identity@),
        decreases deck@.len() - i,
    {
        proof {
            assert(deck@.take(i + 1).drop_last() =~= deck@.take(i as int));
        }
        let ci = CommanderRules::extract_color_identity(&deck[i].1);
        if !within(&ci, identity) {
            out.push(deck[i].0);
        }
        i = i + 1;
        assert(out@ =~= off_identity_cards(deck@.take(i as int), identity@));
    }
    assert(deck@.take(deck@.len() as int) =~= deck@);
    out
}

/// Checks the decks against the colour identity rule of the format: for
/// each player of `players` with at least one commander, the cards of the
/// player's deck in `decks` whose colour identity is not within the combined
/// colour identity of the player's commanders are listed. Players without a
/// commander are not checked.
pub fn validate_commander_deck(
    manager: &CommandZoneManager,
    players: &Vec<EntityId>,
    decks: &EntityMap<Vec<(EntityId, Card)>>,
) -> (errors: EntityMap<Vec<EntityId>>)
    requires
        manager.wf(),
        decks.wf(),
    ensures
        errors.wf(),
        errors@.dom() == players_with_commanders(players@, manager.player_commanders@),
        forall|p: EntityId| #[trigger] errors@.dom().contains(p) ==> errors@[p]@ == deck_problems(*manager, decks@, p),
{
    let mut errors: EntityMap<Vec<EntityId>> = EntityMap::new();
    let ghost f = |p: EntityId| crate::entity::seq_at(manager.player_commanders@, p).len() > 0;
    assert(players@.take(0).to_set().filter(f) =~= Set::<EntityId>::empty());
    let mut i: usize = 0;
    while i < players.len()
        invariant
            manager.wf(),
            decks.wf(),
            errors.wf(),
            f == (|p: EntityId| crate::entity::seq_at(manager.player_commanders@, p).len() > 0),
            i <= players@.len(),
            errors@.dom() == players@.take(i as int).to_set().filter(f),
            forall|p: EntityId| #[trigger] errors@.dom().contains(p) ==> errors@[p]@ == deck_problems(*manager, decks@, p),
        decreases players@.len() - i,
    {
        let p = players[i];
        proof {
            assert(players@.take(i + 1) =~= players@.take(i as int).push(p));
            players@.take(i as int).lemma_push_to_set_commute(p);
        }
        let commanders = manager.get_player_commanders(p);
        if commanders.len() > 0 {
            let identity = commanders_identity(&manager.commander_colors, &commanders);
            let bad = match decks.get(p) {
                Some(deck) => cards_off_identity(deck, &identity),
                None => {
                    assert(off_identity_cards(Seq::<(EntityId, Card)>::empty(), identity@) =~= Seq::<EntityId>::empty());
                    Vec::new()
                },
            };
            errors.insert(p, bad);
            assert(errors@.dom() =~= players@.take(i + 1).to_set().filter(f));
        } else {
            assert(errors@.dom() =~= players@.take(i + 1).to_set().filter(f));
        }
        i = i + 1;
    }
    assert(players@.take(players@.len() as int) =~= players@);
    errors
}

/// The commander damage recorded against `player` (its first entry, or 0).
pub open spec fn entry_total(damage: Seq<(EntityId, u32)>, player: EntityId) -> nat {
    match first_entry(damage, player) {
        Some(d) => d as nat,
        None => 0,
    }
}

/// The commander combat damage that `source` deals `player` in `events`.
pub open spec fn damage_sum(events: Seq<CombatDamageEvent>, source: EntityId, player: EntityId) -> nat
    decreases events.len(),
{
    if events.len() == 0 {
        0
    } else {
        let e = events.last();
        damage_sum(events.drop_last(), source, player) + if counts_as_commander_damage(e) && e.source == source
            && e.target == player {
            e.damage as nat
        } else {
            0
        }
    }
}

/// The first entry is the entry at the first index.
proof fn lemma_first_entry_at_index(s: Seq<(EntityId, u32)>, p: EntityId)
    ensures
        first_entry(s, p) == match entry_index(s, p) {
            Some(i) => Some(s[i].1),
            None => None::<u32>,
        },
    decreases s.len(),
{
    if s.len() > 0 {
        lemma_first_entry_at_index(s.drop_last(), p);
        if entry_index(s.drop_last(), p) is Some {
            lemma_entry_index_found(s.drop_last(), p);
        }
    }
}

/// The first index only depends on the keys.
proof fn lemma_entry_index_keys(s: Seq<(EntityId, u32)>, t: Seq<(EntityId, u32)>, p: EntityId)
    requires
        s.len() == t.len(),
        forall|j: int| 0 <= j < s.len() ==> #[trigger] s[j].0 == t[j].0,
    ensures
        entry_index(s, p) == entry_index(t, p),
    decreases s.len(),
{
    if s.len() > 0 {
        lemma_entry_index_keys(s.drop_last(), t.drop_last(), p);
    }
}

/// Recording one event changes the total against `player` by its damage
/// when it is aimed at `player`, and not at all otherwise.
proof fn lemma_add_entry_total(s: Seq<(EntityId, u32)>, t: EntityId, d: u32, p: EntityId)
    requires
        match entry_index(s, t) {
            Some(i) => s[i].1 + d <= u32::MAX,
            None => true,
        },
    ensures
        entry_total(add_entry(s, t, d), p) == entry_total(s, p) + if t == p { d as nat } else { 0 },
{
    let r = add_entry(s, t, d);
    lemma_first_entry_at_index(s, p);
    lemma_first_entry_at_index(r, p);
    match entry_index(s, t) {
        Some(i) => {
            lemma_entry_index_found(s, t);
            lemma_entry_index_keys(s, r, p);
            if entry_index(s, p) is Some {
                lemma_entry_index_found(s, p);
            }
        },
        None => {
            assert(r.drop_last() =~= s);
            if entry_index(s, p) is Some {
                lemma_entry_index_found(s, p);
            }
        },
    }
}

/// Recording commander damage adds up: after the events, the damage recorded
/// for `source` against `player` is what was recorded before plus all the
/// commander combat damage `source` dealt `player` in the events.
pub proof fn law_commander_damage_accumulates(
    damage: Seq<(EntityId, u32)>,
    source: EntityId,
    events: Seq<CombatDamageEvent>,
    player: EntityId,
)
    requires
        record_fits(damage, source, events),
    ensures
        entry_total(dealt_after(damage, source, events), player) == entry_total(damage, player) + damage_sum(events, source, player),
    decreases events.len(),
{
    if events.len() > 0 {
        law_commander_damage_accumulates(damage, source, events.drop_last(), player);
        let e = events.last();
        if counts_as_commander_damage(e) && e.source == source {
            lemma_add_entry_total(dealt_after(damage, source, events.drop_last()), e.target, e.damage, player);
        }
    }
}

/// A player with 21 or more recorded damage from a commander is eliminated
/// by that commander.
pub proof fn law_threshold_eliminates(damage: Seq<(EntityId, u32)>, player: EntityId)
    requires
        entry_total(damage, player) >= COMMANDER_DAMAGE_THRESHOLD,
    ensures
        lethal_entry(damage, player),
{
    lemma_first_entry_at_index(damage, player);
    lemma_entry_index_found(damage, player);
    let i = entry_index(damage, player)->0;
    assert(damage[i].0 == player);
}

/// A commander whose recorded damage against a player reaches 21 makes that
/// player eliminated by commander damage, whatever the other commanders have
/// dealt.
pub proof fn law_lethal_commander_eliminates(commanders: Seq<(EntityId, Commander)>, player: EntityId, i: int)
    requires
        0 <= i < commanders.len(),
        entry_total(commanders[i].1.damage_dealt@, player) >= COMMANDER_DAMAGE_THRESHOLD,
    ensures
        first_lethal(commanders, player) is Some,
    decreases commanders.len(),
{
    if i < commanders.len() - 1 {
        law_lethal_commander_eliminates(commanders.drop_last(), player, i);
    }
}

/// The cost of casting a commander from the command zone: its base cost
/// plus 2 generic mana for each earlier cast.
pub open spec fn commander_cost(base: Mana, counts: Map<EntityId, u32>, commander: EntityId) -> int {
    base.colorless + 2 * count_of(counts, commander)
}

/// Each cast of a commander raises the generic part of its next cost by
/// exactly 2, and leaves the cost of the other commanders unchanged.
pub proof fn law_commander_tax_rises_by_two(base: Mana, counts: Map<EntityId, u32>, commander: EntityId, other: EntityId)
    requires
        count_of(counts, commander) < u32::MAX,
    ensures
        commander_cost(base, counts.insert(commander, (count_of(counts, commander) + 1) as u32), commander)
            == commander_cost(base, counts, commander) + 2,
        other != commander ==> commander_cost(
            base,
            counts.insert(commander, (count_of(counts, commander) + 1) as u32),
            other,
        ) == commander_cost(base, counts, other),
{
}

/// A commander that leaves the battlefield or the stack for the graveyard
/// or exile offers its owner the command zone, once, from the zone it went
/// to; any other move, and any move of a card that is not a commander,
/// offers nothing. Handling one more move adds exactly the choice that move
/// gives.
pub proof fn law_dying_commander_offers_command_zone(
    commanders: Map<EntityId, Commander>,
    events: Seq<ZoneChangeEvent>,
    e: ZoneChangeEvent,
)
    ensures
        choices_for(commanders, Seq::empty()) == Seq::<CommanderZoneChoiceEvent>::empty(),
        choices_for(commanders, events.push(e)) == choices_for(commanders, events) + if commanders.dom().contains(e.card)
            && (e.source == Zone::Battlefield || e.source == Zone::Stack)
            && (e.destination == Zone::Graveyard || e.destination == Zone::Exile) {
            seq![CommanderZoneChoiceEvent {
                commander: e.card,
                owner: commanders[e.card].owner,
                current_zone: e.destination,
                can_go_to_command_zone: true,
            }]
        } else {
            Seq::<CommanderZoneChoiceEvent>::empty()
        },
{
    assert(events.push(e).drop_last() =~= events);
}

/// A colour is in a card's colour identity exactly when the card's cost has
/// a pip of that colour or its rules text shows that colour's mana symbol.
pub proof fn law_color_identity_by_colour(card: Card)
    ensures
        ({
            let id = cost_colors(card.cost).union(text_colors(card.rules_text@));
            &&& id.contains(ManaColor::White) <==> (card.cost.white > 0 || contains_text(card.rules_text@, "{W}"@))
            &&& id.contains(ManaColor::Blue) <==> (card.cost.blue > 0 || contains_text(card.rules_text@, "{U}"@))
            &&& id.contains(ManaColor::Black) <==> (card.cost.black > 0 || contains_text(card.rules_text@, "{B}"@))
            &&& id.contains(ManaColor::Red) <==> (card.cost.red > 0 || contains_text(card.rules_text@, "{R}"@))
            &&& id.contains(ManaColor::Green) <==> (card.cost.green > 0 || contains_text(card.rules_text@, "{G}"@))
        }),
{
}

} // verus!
