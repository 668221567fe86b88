//! Keyword abilities and counters on permanents: granting and removing
//! keywords, adding and removing counters, +1/+1 and -1/-1 counters
//! cancelling out, indestructible, proliferate, and copying both.

use vstd::prelude::*;
use crate::entity::{EntityId, EntityMap, add_unique, vec_push_unique};

verus! {

/// A keyword ability.
#[derive(Clone, Copy, PartialEq, Eq, Structural, Debug)]
pub enum Keyword {
    Flying,
    FirstStrike,
    DoubleStrike,
    Deathtouch,
    Lifelink,
    Indestructible,
    Landfall,
    Prowess,
    Shadow,
    Horsemanship,
}

/// The keywords of a permanent.
pub struct Keywords {
    /// The keywords it has.
    pub active: Vec<Keyword>,
    /// Keywords that last until end of turn.
    pub until_end_of_turn: Vec<Keyword>,
    /// Keywords granted by a source.
    pub granted_by: Vec<(Keyword, EntityId)>,
    /// Extra text for keywords that carry some (the first entry counts).
    pub details: Vec<(Keyword, String)>,
}

/// Keywords other than `k`.
pub open spec fn other_than(k: Keyword) -> spec_fn(Keyword) -> bool {
    |x: Keyword| x != k
}

/// `s` without `k`.
pub open spec fn keyword_removed(s: Seq<Keyword>, k: Keyword) -> Seq<Keyword> {
    s.filter(other_than(k))
}

/// Entries for keywords other than `k`.
pub open spec fn entry_other_than<T>(k: Keyword) -> spec_fn((Keyword, T)) -> bool {
    |e: (Keyword, T)| e.0 != k
}

/// `s` without entries for `k`.
pub open spec fn entries_removed<T>(s: Seq<(Keyword, T)>, k: Keyword) -> Seq<(Keyword, T)> {
    s.filter(entry_other_than::<T>(k))
}

/// Removes the text entries for `k`, keeping the others in order.
fn remove_details(details: &mut Vec<(Keyword, String)>, k: Keyword)
    ensures
        final(details)@ == entries_removed(old(details)@, k),
{
    let ghost d0 = details@;
    let ghost pred = entry_other_than::<String>(k);
    let mut kept: Vec<(Keyword, String)> = Vec::new();
    while details.len() > 0
        invariant
            pred == entry_other_than::<String>(k),
            details@.len() <= d0.len(),
            details@ == d0.skip(d0.len() - details@.len()),
            kept@ == d0.take(d0.len() - details@.len()).filter(pred),
        decreases details@.len(),
    {
        let ghost n = d0.len() - details@.len();
        let e = details.remove(0);
        proof {
            assert(e == d0[n]);
            assert(details@ =~= d0.skip(n + 1));
            assert(d0.take(n + 1) =~= d0.take(n).push(e));
            d0.take(n).lemma_filter_push(e, pred);
        }
        if e.0 != k {
            kept.push(e);
        }
    }
    assert(d0.take(d0.len() as int) =~= d0);
    *details = kept;
}

/// Removes every `k` from `v`.
fn remove_keyword(v: &mut Vec<Keyword>, k: Keyword)
    ensures
        final(v)@ == keyword_removed(old(v)@, k),
{
    let ghost pred = other_than(k);
    let mut kept: Vec<Keyword> = Vec::new();
    let mut i: usize = 0;
    while i < v.len()
        invariant
            pred == other_than(k),
            i <= v@.len(),
            kept@ == v@.take(i as int).filter(pred),
        decreases v@.len() - i,
    {
        let x = v[i];
        proof {
            assert(v@.take(i + 1) =~= v@.take(i as int).push(x));
            v@.take(i as int).lemma_filter_push(x, pred);
        }
        if x != k {
            kept.push(x);
        }
        i = i + 1;
    }
    assert(v@.take(v@.len() as int) =~= v@);
    *v = kept;
}

/// Adds `k` to `v` unless it is there.
fn push_keyword(v: &mut Vec<Keyword>, k: Keyword)
    ensures
        final(v)@ == add_unique(old(v)@, k),
{
    let mut i: usize = 0;
    while i < v.len()
        invariant
            i <= v@.len(),
            forall|j: int| 0 <= j < i ==> v@[j] != k,
        decreases v@.len() - i,
    {
        if v[i] == k {
            assert(v@.contains(k));
            return;
        }
        i = i + 1;
    }
    v.push(k);
}

impl Keywords {
    /// No keywords.
    pub fn new() -> (k: Keywords)
        ensures
            k.active@.len() == 0,
            k.until_end_of_turn@.len() == 0,
            k.granted_by@.len() == 0,
            k.details@.len() == 0,
    {
        Keywords { active: Vec::new(), until_end_of_turn: Vec::new(), granted_by: Vec::new(), details: Vec::new() }
    }

    /// Whether the permanent has `k`.
    pub fn has(&self, k: Keyword) -> (b: bool)
        ensures
            b == self.active@.contains(k),
    {
        let mut i: usize = 0;
        while i < self.active.len()
            invariant
                i <= self.active@.len(),
                forall|j: int| 0 <= j < i ==> self.active@[j] != k,
            decreases self.active@.len() - i,
        {
            if self.active[i] == k {
                return true;
            }
            i = i + 1;
        }
        false
    }

    /// Gives the permanent `k`.
    pub fn add(&mut self, k: Keyword)
        ensures
            final(self).active@ == add_unique(old(self).active@, k),
            final(self).until_end_of_turn@ == old(self).until_end_of_turn@,
            final(self).granted_by@ == old(self).granted_by@,
            final(self).details@ == old(self).details@,
    {
        push_keyword(&mut self.active, k);
    }

    /// Gives the permanent `k` until end of turn.
    pub fn add_until_end_of_turn(&mut self, k: Keyword)
        ensures
            final(self).active@ == add_unique(old(self).active@, k),
            final(self).until_end_of_turn@ == add_unique(old(self).until_end_of_turn@, k),
            final(self).granted_by@ == old(self).granted_by@,
            final(self).details@ == old(self).details@,
    {
        push_keyword(&mut self.active, k);
        push_keyword(&mut self.until_end_of_turn, k);
    }

    /// Gives the permanent `k`, granted by `source`.
    pub fn add_granted_by(&mut self, k: Keyword, source: EntityId)
        ensures
            final(self).active@ == add_unique(old(self).active@, k),
            final(self).until_end_of_turn@ == old(self).until_end_of_turn@,
            final(self).granted_by@ == old(self).granted_by@.push((k, source)),
            final(self).details@ == old(self).details@,
    {
        push_keyword(&mut self.active, k);
        self.granted_by.push((k, source));
    }

    /// Gives the permanent `k` with extra text, which replaces any text `k`
    /// had.
    pub fn add_with_details(&mut self, k: Keyword, details: String)
        ensures
            final(self).active@ == add_unique(old(self).active@, k),
            final(self).until_end_of_turn@ == old(self).until_end_of_turn@,
            final(self).granted_by@ == old(self).granted_by@,
            final(self).details@ == entries_removed(old(self).details@, k).push((k, details)),
    {
        push_keyword(&mut self.active, k);
        remove_details(&mut self.details, k);
        self.details.push((k, details));
    }

    /// Takes `k` away, with its duration, grants and text.
    pub fn remove(&mut self, k: Keyword)
        ensures
            final(self).active@ == keyword_removed(old(self).active@, k),
            final(self).until_end_of_turn@ == keyword_removed(old(self).until_end_of_turn@, k),
            final(self).granted_by@ == entries_removed(old(self).granted_by@, k),
            final(self).details@ == entries_removed(old(self).details@, k),
    {
        remove_keyword(&mut self.active, k);
        remove_keyword(&mut self.until_end_of_turn, k);
        let ghost a1 = self.active@;
        let ghost u1 = self.until_end_of_turn@;
        let ghost pred = entry_other_than::<EntityId>(k);
        let mut granted: Vec<(Keyword, EntityId)> = Vec::new();
        let mut i: usize = 0;
        while i < self.granted_by.len()
            invariant
                pred == entry_other_than::<EntityId>(k),
                self.active@ == a1,
                self.until_end_of_turn@ == u1,
                i <= self.granted_by@.len(),
                granted@ == self.granted_by@.take(i as int).filter(pred),
            decreases self.granted_by@.len() - i,
        {
            let e = self.granted_by[i];
            proof {
                assert(self.granted_by@.take(i + 1) =~= self.granted_by@.take(i as int).push(e));
                self.granted_by@.take(i as int).lemma_filter_push(e, pred);
            }
            if e.0 != k {
                granted.push(e);
            }
            i = i + 1;
        }
        assert(self.granted_by@.take(self.granted_by@.len() as int) =~= self.granted_by@);
        self.granted_by = granted;
        remove_details(&mut self.details, k);
    }

    /// The extra text of `k`, if any.
    pub fn details_of(&self, k: Keyword) -> (r: Option<String>)
        ensures
            r == first_detail(self.details@, k),
    {
        find_detail(&self.details, k)
    }
}

impl Default for Keywords {
    fn default() -> (k: Self)
        ensures
            k.active@.len() == 0,
            k.until_end_of_turn@.len() == 0,
            k.granted_by@.len() == 0,
            k.details@.len() == 0,
    {
        Keywords::new()
    }
}

/// A keyword is granted to or taken from a card.
#[derive(Clone, Copy, PartialEq, Eq, Structural, Debug)]
pub struct KeywordChangeEvent {
    pub card: EntityId,
    pub keyword: Keyword,
    pub added: bool,
    pub until_end_of_turn: bool,
    pub source: Option<EntityId>,
}

/// What a permanent's keywords consist of: the keywords it has, those that
/// last until end of turn, the grants, and the texts.
pub type KeywordState = (Seq<Keyword>, Seq<Keyword>, Seq<(Keyword, EntityId)>, Seq<(Keyword, String)>);

/// The state of a permanent's keywords.
pub open spec fn keyword_state(kw: Keywords) -> KeywordState {
    (kw.active@, kw.until_end_of_turn@, kw.granted_by@, kw.details@)
}

/// The keywords after a change: an added keyword is given until end of
/// turn, granted by its source, or plainly; a removed one is taken away
/// with its duration, grants and text.
pub open spec fn keywords_changed(st: KeywordState, e: KeywordChangeEvent) -> KeywordState {
    if e.added {
        if e.until_end_of_turn {
            (add_unique(st.0, e.keyword), add_unique(st.1, e.keyword), st.2, st.3)
        } else {
            match e.source {
                Some(source) => (add_unique(st.0, e.keyword), st.1, st.2.push((e.keyword, source)), st.3),
                None => (add_unique(st.0, e.keyword), st.1, st.2, st.3),
            }
        }
    } else {
        (
            keyword_removed(st.0, e.keyword),
            keyword_removed(st.1, e.keyword),
            entries_removed(st.2, e.keyword),
            entries_removed(st.3, e.keyword),
        )
    }
}

/// The keywords of `card` after the changes `events` aimed at it.
pub open spec fn keywords_after(st: KeywordState, card: EntityId, events: Seq<KeywordChangeEvent>) -> KeywordState
    decreases events.len(),
{
    if events.len() == 0 {
        st
    } else {
        let prev = keywords_after(st, card, events.drop_last());
        if events.last().card == card {
            keywords_changed(prev, events.last())
        } else {
            prev
        }
    }
}

/// Applies keyword changes to one permanent's keywords.
fn change_keywords(kw: &mut Keywords, card: EntityId, events: &Vec<KeywordChangeEvent>)
    ensures
        keyword_state(*final(kw)) == keywords_after(keyword_state(*old(kw)), card, events@),
{
    let mut i: usize = 0;
    while i < events.len()
        invariant
            i <= events@.len(),
            keyword_state(*kw) == keywords_after(keyword_state(*old(kw)), card, events@.take(i as int)),
        decreases events@.len() - i,
    {
        let e = events[i];
        proof {
            assert(events@.take(i + 1).drop_last() =~= events@.take(i as int));
        }
        if e.card == card {
            if e.added {
                if e.until_end_of_turn {
                    kw.add_until_end_of_turn(e.keyword);
                } else {
                    match e.source {
                        Some(source) => kw.add_granted_by(e.keyword, source),
                        None => kw.add(e.keyword),
                    }
                }
            } else {
                kw.remove(e.keyword);
            }
        }
        i = i + 1;
    }
    assert(events@.take(events@.len() as int) =~= events@);
}

/// Grants and removes keywords: an added keyword is given (until end of
/// turn, granted by its source, or plainly); a removed one is taken away
/// with its duration, grants and text. Changes aimed at cards without
/// keywords are ignored.
pub fn process_keyword_changes(events: &Vec<KeywordChangeEvent>, keywords: &mut EntityMap<Keywords>)
    requires
        old(keywords).wf(),
    ensures
        final(keywords).wf(),
        final(keywords)@.dom() == old(keywords)@.dom(),
        final(keywords).key_seq() == old(keywords).key_seq(),
        forall|k: EntityId| #[trigger] old(keywords)@.dom().contains(k)
            ==> keyword_state(final(keywords)@[k]) == keywords_after(keyword_state(old(keywords)@[k]), k, events@),
{
    let ghost e0 = old(keywords).entries@;
    let mut i: usize = 0;
    while i < keywords.entries.len()
        invariant
            keywords.wf(),
            old(keywords).wf(),
            e0 == old(keywords).entries@,
            keywords.key_seq() == old(keywords).key_seq(),
            keywords.entries@.len() == e0.len(),
            i <= e0.len(),
            forall|j: int| 0 <= j < e0.len() ==> #[trigger] keywords.entries@[j].0 == e0[j].0,
            forall|j: int| 0 <= j < i ==> keyword_state(#[trigger] keywords.entries@[j].1)
                == keywords_after(keyword_state(e0[j].1), e0[j].0, events@),
            forall|j: int| i <= j < e0.len() ==> #[trigger] keywords.entries@[j] == e0[j],
        decreases e0.len() - i,
    {
        let card = keywords.entries[i].0;
        let mut kw = keywords.replace_at(i, Keywords::new());
        change_keywords(&mut kw, card, events);
        let _ = keywords.replace_at(i, kw);
        i = i + 1;
    }
    proof {
        assert(keywords@.dom() =~= old(keywords)@.dom()) by {
            assert forall|k: EntityId| #[trigger] keywords@.dom().contains(k) == old(keywords)@.dom().contains(k) by {
                crate::entity::lemma_key_seq_contains(*keywords, k);
                crate::entity::lemma_key_seq_contains(*old(keywords), k);
            }
        }
        assert forall|k: EntityId| #[trigger] old(keywords)@.dom().contains(k)
            implies keyword_state(keywords@[k]) == keywords_after(keyword_state(old(keywords)@[k]), k, events@) by {
            let j = crate::entity::seq_key_index(e0, k);
            crate::entity::lemma_key_index_unique(e0, j);
            crate::entity::lemma_key_index_unique(keywords.entries@, j);
        }
    }
}

/// The kinds of counters.
#[derive(Clone, Copy, PartialEq, Eq, Structural, Debug)]
pub enum CounterType {
    PlusOnePlusOne,
    MinusOneMinusOne,
    Loyalty,
    Charge,
    Poison,
    Experience,
}

/// The counters on a permanent, by kind.
#[derive(Clone, Copy, PartialEq, Eq, Structural, Debug)]
pub struct Counters {
    pub plus_one_plus_one: u32,
    pub minus_one_minus_one: u32,
    pub loyalty: u32,
    pub charge: u32,
    pub poison: u32,
    pub experience: u32,
}

/// The number of counters of kind `t`.
pub open spec fn count(c: Counters, t: CounterType) -> u32 {
    match t {
        CounterType::PlusOnePlusOne => c.plus_one_plus_one,
        CounterType::MinusOneMinusOne => c.minus_one_minus_one,
        CounterType::Loyalty => c.loyalty,
        CounterType::Charge => c.charge,
        CounterType::Poison => c.poison,
        CounterType::Experience => c.experience,
    }
}

/// `c` with `n` counters of kind `t`.
pub open spec fn with_count(c: Counters, t: CounterType, n: u32) -> Counters {
    match t {
        CounterType::PlusOnePlusOne => Counters { plus_one_plus_one: n, ..c },
        CounterType::MinusOneMinusOne => Counters { minus_one_minus_one: n, ..c },
        CounterType::Loyalty => Counters { loyalty: n, ..c },
        CounterType::Charge => Counters { charge: n, ..c },
        CounterType::Poison => Counters { poison: n, ..c },
        CounterType::Experience => Counters { experience: n, ..c },
    }
}

/// No counters at all.
pub open spec fn no_counters(c: Counters) -> bool {
    c.plus_one_plus_one == 0 && c.minus_one_minus_one == 0 && c.loyalty == 0 && c.charge == 0 && c.poison == 0
        && c.experience == 0
}

impl Counters {
    /// No counters.
    pub fn new() -> (c: Counters)
        ensures
            no_counters(c),
    {
        Counters { plus_one_plus_one: 0, minus_one_minus_one: 0, loyalty: 0, charge: 0, poison: 0, experience: 0 }
    }

    /// The number of counters of kind `t`.
    pub fn get(&self, t: CounterType) -> (n: u32)
        ensures
            n == count(*self, t),
    {
        match t {
            CounterType::PlusOnePlusOne => self.plus_one_plus_one,
            CounterType::MinusOneMinusOne => self.minus_one_minus_one,
            CounterType::Loyalty => self.loyalty,
            CounterType::Charge => self.charge,
            CounterType::Poison => self.poison,
            CounterType::Experience => self.experience,
        }
    }

    /// Sets the number of counters of kind `t`.
    fn set(&mut self, t: CounterType, n: u32)
        ensures
            *final(self) == with_count(*old(self), t, n),
    {
        match t {
            CounterType::PlusOnePlusOne => self.plus_one_plus_one = n,
            CounterType::MinusOneMinusOne => self.minus_one_minus_one = n,
            CounterType::Loyalty => self.loyalty = n,
            CounterType::Charge => self.charge = n,
            CounterType::Poison => self.poison = n,
            CounterType::Experience => self.experience = n,
        }
    }

    /// Adds `n` counters of kind `t`.
    pub fn add(&mut self, t: CounterType, n: u32)
        requires
            count(*old(self), t) + n <= u32::MAX,
        ensures
            *final(self) == with_count(*old(self), t, (count(*old(self), t) + n) as u32),
    {
        let current = self.get(t);
        self.set(t, current + n);
    }

    /// Removes up to `n` counters of kind `t` (never below zero).
    pub fn remove(&mut self, t: CounterType, n: u32)
        ensures
            *final(self) == with_count(*old(self), t, if count(*old(self), t) >= n {
                (count(*old(self), t) - n) as u32
            } else {
                0
            }),
    {
        let current = self.get(t);
        let left = if current >= n {
            current - n
        } else {
            0
        };
        self.set(t, left);
    }
}

impl Default for Counters {
    fn default() -> (c: Self)
        ensures
            no_counters(c),
    {
        Counters::new()
    }
}

/// Counters are put on or taken off a card.
#[derive(Clone, Copy, PartialEq, Eq, Structural, Debug)]
pub struct CounterChangeEvent {
    pub card: EntityId,
    pub counter_type: CounterType,
    /// Positive to add, negative to remove.
    pub amount: i32,
    pub source: Option<EntityId>,
}

/// The counters after a change: a positive amount adds that many, a
/// negative amount removes that many (never below zero).
pub open spec fn counters_changed(c: Counters, e: CounterChangeEvent) -> Counters {
    if e.amount > 0 {
        with_count(c, e.counter_type, (count(c, e.counter_type) + e.amount) as u32)
    } else if e.amount < 0 {
        let n = -e.amount;
        with_count(c, e.counter_type, if count(c, e.counter_type) >= n {
            (count(c, e.counter_type) - n) as u32
        } else {
            0
        })
    } else {
        c
    }
}

/// The counters of `card` after the changes `events` aimed at it.
pub open spec fn counters_after(c: Counters, card: EntityId, events: Seq<CounterChangeEvent>) -> Counters
    decreases events.len(),
{
    if events.len() == 0 {
        c
    } else {
        let prev = counters_after(c, card, events.drop_last());
        if events.last().card == card {
            counters_changed(prev, events.last())
        } else {
            prev
        }
    }
}

/// No addition overflows and no amount is the most negative one.
pub open spec fn counter_changes_fit(c: Counters, card: EntityId, events: Seq<CounterChangeEvent>) -> bool
    decreases events.len(),
{
    if events.len() == 0 {
        true
    } else {
        let prev = counters_after(c, card, events.drop_last());
        let e = events.last();
        &&& counter_changes_fit(c, card, events.drop_last())
        &&& e.card == card ==> e.amount != i32::MIN && (e.amount > 0 ==> count(prev, e.counter_type) + e.amount <= u32::MAX)
    }
}

/// A prefix of changes that fit also fits.
proof fn lemma_counter_changes_prefix(c: Counters, card: EntityId, events: Seq<CounterChangeEvent>, k: int)
    requires
        counter_changes_fit(c, card, events),
        0 <= k <= events.len(),
    ensures
        counter_changes_fit(c, card, events.take(k)),
    decreases events.len(),
{
    if k == events.len() {
        assert(events.take(k) =~= events);
    } else {
        assert(events.drop_last().take(k) =~= events.take(k));
        lemma_counter_changes_prefix(c, card, events.drop_last(), k);
    }
}

/// Puts counters on and takes them off cards: a positive amount adds
/// counters, a negative one removes them (never below zero). Changes aimed
/// at cards without counters are ignored.
pub fn process_counter_changes(events: &Vec<CounterChangeEvent>, counters: &mut EntityMap<Counters>)
    requires
        old(counters).wf(),
        forall|k: EntityId| #[trigger] old(counters)@.dom().contains(k) ==> counter_changes_fit(old(counters)@[k], k, events@),
    ensures
        final(counters).wf(),
        final(counters).key_seq() == old(counters).key_seq(),
        final(counters)@ == Map::new(
            |k: EntityId| old(counters)@.dom().contains(k),
            |k: EntityId| counters_after(old(counters)@[k], k, events@),
        ),
{
    let ghost m0 = old(counters)@;
    let mut i: usize = 0;
    while i < events.len()
        invariant
            counters.wf(),
            counters.key_seq() == old(counters).key_seq(),
            i <= events@.len(),
            forall|k: EntityId| #[trigger] m0.dom().contains(k) ==> counter_changes_fit(m0[k], k, events@),
            counters@ == Map::new(
                |k: EntityId| m0.dom().contains(k),
                |k: EntityId| counters_after(m0[k], k, events@.take(i as int)),
            ),
        decreases events@.len() - i,
    {
        let e = events[i];
        proof {
            assert(events@.take(i + 1).drop_last() =~= events@.take(i as int));
        }
        match counters.get(e.card) {
            Some(c) => {
                let mut c2 = *c;
                proof {
                    lemma_counter_changes_prefix(m0[e.card], e.card, events@, i + 1);
                }
                if e.amount > 0 {
                    c2.add(e.counter_type, e.amount as u32);
                } else if e.amount < 0 {
                    c2.remove(e.counter_type, (-e.amount) as u32);
                }
                counters.insert(e.card, c2);
            },
            None => {},
        }
        proof {
            assert(counters@ =~= Map::new(
                |k: EntityId| m0.dom().contains(k),
                |k: EntityId| counters_after(m0[k], k, events@.take(i + 1)),
            ));
        }
        i = i + 1;
    }
    assert(events@.take(events@.len() as int) =~= events@);
}

/// +1/+1 and -1/-1 counters cancel: as many of each as the smaller count
/// are removed.
pub open spec fn cancelled(c: Counters) -> Counters {
    if c.plus_one_plus_one > 0 && c.minus_one_minus_one > 0 {
        let n = if c.plus_one_plus_one < c.minus_one_minus_one { c.plus_one_plus_one } else { c.minus_one_minus_one };
        Counters {
            plus_one_plus_one: (c.plus_one_plus_one - n) as u32,
            minus_one_minus_one: (c.minus_one_minus_one - n) as u32,
            ..c
        }
    } else {
        c
    }
}

/// Cancels +1/+1 against -1/-1 counters on every permanent.
pub fn handle_counter_interactions(counters: &mut Vec<Counters>)
    ensures
        final(counters)@ == old(counters)@.map_values(|c: Counters| cancelled(c)),
{
    let mut i: usize = 0;
    while i < counters.len()
        invariant
            counters@.len() == old(counters)@.len(),
            i <= counters@.len(),
            forall|j: int| 0 <= j < i ==> #[trigger] counters@[j] == cancelled(old(counters)@[j]),
            forall|j: int| i <= j < counters@.len() ==> #[trigger] counters@[j] == old(counters)@[j],
        decreases counters@.len() - i,
    {
        let mut c = counters[i];
        let plus = c.get(CounterType::PlusOnePlusOne);
        let minus = c.get(CounterType::MinusOneMinusOne);
        if plus > 0 && minus > 0 {
            let n = if plus < minus {
                plus
            } else {
                minus
            };
            c.remove(CounterType::PlusOnePlusOne, n);
            c.remove(CounterType::MinusOneMinusOne, n);
        }
        counters.set(i, c);
        i = i + 1;
    }
    assert(counters@ =~= old(counters)@.map_values(|c: Counters| cancelled(c)));
}

/// The permanents that are indestructible.
pub struct IndestructibleTracker {
    pub entities: Vec<EntityId>,
}

/// Records which permanents have indestructible (each once, in order).
pub fn check_indestructible(tracker: &mut IndestructibleTracker, keywords: &Vec<(EntityId, Keywords)>)
    ensures
        forall|e: EntityId| #[trigger] final(tracker).entities@.contains(e) <==> exists|i: int|
            0 <= i < keywords@.len() && keywords@[i].0 == e && keywords@[i].1.active@.contains(Keyword::Indestructible),
        final(tracker).entities@.no_duplicates(),
{
    tracker.entities.clear();
    let mut i: usize = 0;
    while i < keywords.len()
        invariant
            i <= keywords@.len(),
            tracker.entities@.no_duplicates(),
            forall|e: EntityId| #[trigger] tracker.entities@.contains(e) <==> exists|j: int|
                0 <= j < i && keywords@[j].0 == e && keywords@[j].1.active@.contains(Keyword::Indestructible),
        decreases keywords@.len() - i,
    {
        let ghost t0 = tracker.entities@;
        let e = keywords[i].0;
        if keywords[i].1.has(Keyword::Indestructible) {
            vec_push_unique(&mut tracker.entities, e);
        }
        proof {
            assert forall|x: EntityId| #[trigger] tracker.entities@.contains(x) <==> exists|j: int|
                0 <= j < i + 1 && keywords@[j].0 == x && keywords@[j].1.active@.contains(Keyword::Indestructible) by {
                if tracker.entities@.contains(x) && !t0.contains(x) {
                    let w = choose|w: int| 0 <= w < tracker.entities@.len() && tracker.entities@[w] == x;
                    assert(w == t0.len());
                }
                if t0.contains(x) {
                    let w = choose|w: int| 0 <= w < t0.len() && t0[w] == x;
                    assert(tracker.entities@[w] == x);
                }
                if exists|j: int| 0 <= j < i + 1 && keywords@[j].0 == x && keywords@[j].1.active@.contains(Keyword::Indestructible) {
                    let j = choose|j: int| 0 <= j < i + 1 && keywords@[j].0 == x && keywords@[j].1.active@.contains(Keyword::Indestructible);
                    if j == i && !t0.contains(x) {
                        assert(tracker.entities@[t0.len() as int] == x);
                    }
                }
            }
            assert forall|a: int, b: int| 0 <= a < tracker.entities@.len() && 0 <= b < tracker.entities@.len() && a != b
                implies tracker.entities@[a] != tracker.entities@[b] by {
                if a < t0.len() && b < t0.len() {
                } else if a < t0.len() {
                    assert(t0.contains(t0[a]));
                } else if b < t0.len() {
                    assert(t0.contains(t0[b]));
                }
            }
        }
        i = i + 1;
    }
}

/// Whether proliferate is waiting, and the permanents it affected.
pub struct ProliferateTracker {
    pub pending_proliferate: bool,
    pub affected_entities: Vec<EntityId>,
}

/// Proliferate: one more counter of each kind already there.
pub open spec fn proliferated(c: Counters) -> Counters {
    Counters {
        plus_one_plus_one: if c.plus_one_plus_one > 0 { (c.plus_one_plus_one + 1) as u32 } else { 0 },
        minus_one_minus_one: if c.minus_one_minus_one > 0 { (c.minus_one_minus_one + 1) as u32 } else { 0 },
        loyalty: if c.loyalty > 0 { (c.loyalty + 1) as u32 } else { 0 },
        charge: if c.charge > 0 { (c.charge + 1) as u32 } else { 0 },
        poison: if c.poison > 0 { (c.poison + 1) as u32 } else { 0 },
        experience: if c.experience > 0 { (c.experience + 1) as u32 } else { 0 },
    }
}

/// The number of kinds of counters on a permanent.
pub open spec fn kinds(c: Counters) -> nat {
    (if c.plus_one_plus_one > 0 { 1nat } else { 0nat }) + (if c.minus_one_minus_one > 0 { 1nat } else { 0nat })
        + (if c.loyalty > 0 { 1nat } else { 0nat }) + (if c.charge > 0 { 1nat } else { 0nat })
        + (if c.poison > 0 { 1nat } else { 0nat }) + (if c.experience > 0 { 1nat } else { 0nat })
}

/// The affected permanents that proliferating `cs` records: each permanent
/// once per kind of counter on it.
pub open spec fn proliferate_record(cs: Seq<(EntityId, Counters)>) -> Seq<EntityId>
    decreases cs.len(),
{
    if cs.len() == 0 {
        Seq::empty()
    } else {
        proliferate_record(cs.drop_last()) + Seq::new(kinds(cs.last().1), |i: int| cs.last().0)
    }
}

/// No counter is at the 32-bit limit.
pub open spec fn counters_below_limit(c: Counters) -> bool {
    c.plus_one_plus_one < u32::MAX && c.minus_one_minus_one < u32::MAX && c.loyalty < u32::MAX && c.charge < u32::MAX
        && c.poison < u32::MAX && c.experience < u32::MAX
}

/// Proliferates when one is waiting: each permanent gets one more counter
/// of each kind already on it and is recorded once per such kind; then
/// nothing is waiting any more.
pub fn handle_proliferate(tracker: &mut ProliferateTracker, counters: &mut Vec<(EntityId, Counters)>)
    requires
        forall|i: int| 0 <= i < old(counters)@.len() ==> counters_below_limit(#[trigger] old(counters)@[i].1),
    ensures
        !old(tracker).pending_proliferate ==> final(tracker).pending_proliferate == old(tracker).pending_proliferate
            && final(tracker).affected_entities@ == old(tracker).affected_entities@ && final(counters)@ == old(counters)@,
        old(tracker).pending_proliferate ==> {
            &&& !final(tracker).pending_proliferate
            &&& final(tracker).affected_entities@ == old(tracker).affected_entities@ + proliferate_record(old(counters)@)
            &&& final(counters)@ == old(counters)@.map_values(|e: (EntityId, Counters)| (e.0, proliferated(e.1)))
        },
{
    if !tracker.pending_proliferate {
        return;
    }
    let ghost c0 = counters@;
    let ghost a0 = tracker.affected_entities@;
    let mut i: usize = 0;
    while i < counters.len()
        invariant
            counters@.len() == c0.len(),
            i <= c0.len(),
            forall|j: int| 0 <= j < c0.len() ==> counters_below_limit(#[trigger] c0[j].1),
            forall|j: int| 0 <= j < i ==> #[trigger] counters@[j] == (c0[j].0, proliferated(c0[j].1)),
            forall|j: int| i <= j < c0.len() ==> #[trigger] counters@[j] == c0[j],
            tracker.affected_entities@ == a0 + proliferate_record(c0.take(i as int)),
        decreases c0.len() - i,
    {
        let (entity, c) = counters[i];
        let (next, n) = proliferate_one(c);
        let ghost before = tracker.affected_entities@;
        let mut t: usize = 0;
        while t < n
            invariant
                t <= n,
                tracker.affected_entities@ == before + Seq::new(t as nat, |x: int| entity),
            decreases n - t,
        {
            tracker.affected_entities.push(entity);
            t = t + 1;
            assert(tracker.affected_entities@ =~= before + Seq::new(t as nat, |x: int| entity));
        }
        counters.set(i, (entity, next));
        proof {
            assert(c0.take(i + 1).drop_last() =~= c0.take(i as int));
        }
        i = i + 1;
    }
    assert(c0.take(c0.len() as int) =~= c0);
    assert(counters@ =~= c0.map_values(|e: (EntityId, Counters)| (e.0, proliferated(e.1))));
    tracker.pending_proliferate = false;
}

/// One more counter of each kind on `c`, and how many kinds there are.
fn proliferate_one(c: Counters) -> (r: (Counters, usize))
    requires
        counters_below_limit(c),
    ensures
        r.0 == proliferated(c),
        r.1 == kinds(c),
{
    let mut next = c;
    let mut n: usize = 0;
    if c.plus_one_plus_one > 0 {
        next.plus_one_plus_one = c.plus_one_plus_one + 1;
        n = n + 1;
    }
    if c.minus_one_minus_one > 0 {
        next.minus_one_minus_one = c.minus_one_minus_one + 1;
        n = n + 1;
    }
    if c.loyalty > 0 {
        next.loyalty = c.loyalty + 1;
        n = n + 1;
    }
    if c.charge > 0 {
        next.charge = c.charge + 1;
        n = n + 1;
    }
    if c.poison > 0 {
        next.poison = c.poison + 1;
        n = n + 1;
    }
    if c.experience > 0 {
        next.experience = c.experience + 1;
        n = n + 1;
    }
    (next, n)
}

/// A player's experience counters.
pub struct ExperienceCounters {
    pub count: i32,
}

/// The keywords `s` without repeats, in order of first occurrence.
pub open spec fn without_repeats(s: Seq<Keyword>) -> Seq<Keyword>
    decreases s.len(),
{
    if s.len() == 0 {
        Seq::empty()
    } else {
        add_unique(without_repeats(s.drop_last()), s.last())
    }
}

/// The text of the first entry for `k`, if any.
pub open spec fn first_detail(details: Seq<(Keyword, String)>, k: Keyword) -> Option<String>
    decreases details.len(),
{
    if details.len() == 0 {
        None
    } else {
        match first_detail(details.drop_last(), k) {
            Some(d) => Some(d),
            None => if details.last().0 == k {
                Some(details.last().1)
            } else {
                None
            },
        }
    }
}

/// The text entries a copy gets: for each active keyword in order, its
/// text, if any, replacing any text it was given before.
pub open spec fn copied_details(active: Seq<Keyword>, details: Seq<(Keyword, String)>) -> Seq<(Keyword, String)>
    decreases active.len(),
{
    if active.len() == 0 {
        Seq::empty()
    } else {
        let prev = copied_details(active.drop_last(), details);
        match first_detail(details, active.last()) {
            Some(d) => entries_removed(prev, active.last()).push((active.last(), d)),
            None => prev,
        }
    }
}

/// The text of the first entry for `k` in `details`.
fn find_detail(details: &Vec<(Keyword, String)>, k: Keyword) -> (r: Option<String>)
    ensures
        r == first_detail(details@, k),
{
    let mut i: usize = 0;
    while i < details.len()
        invariant
            i <= details@.len(),
            first_detail(details@.take(i as int), k) is None,
        decreases details@.len() - i,
    {
        proof {
            assert(details@.take(i + 1).drop_last() =~= details@.take(i as int));
        }
        if details[i].0 == k {
            proof {
                lemma_first_detail_prefix(details@, k, i + 1);
            }
            let d = details[i].1.clone();
            return Some(d);
        }
        i = i + 1;
    }
    assert(details@.take(details@.len() as int) =~= details@);
    None
}

/// The text found in a prefix is the first text of the whole.
proof fn lemma_first_detail_prefix(s: Seq<(Keyword, String)>, k: Keyword, n: int)
    requires
        0 <= n <= s.len(),
        first_detail(s.take(n), k) is Some,
    ensures
        first_detail(s, k) == first_detail(s.take(n), k),
    decreases s.len(),
{
    if n == s.len() {
        assert(s.take(n) =~= s);
    } else {
        assert(s.drop_last().take(n) =~= s.take(n));
        lemma_first_detail_prefix(s.drop_last(), k, n);
    }
}

/// Copies the keywords of `source` onto `target` (as a clone effect does):
/// the target's keywords are replaced by the source's active keywords, each
/// once, with their text. Fails, changing nothing, when either has no
/// keywords.
pub fn copy_keywords(source: EntityId, target: EntityId, keywords: &mut EntityMap<Keywords>) -> (copied: bool)
    requires
        old(keywords).wf(),
    ensures
        final(keywords).wf(),
        copied == (old(keywords)@.dom().contains(source) && old(keywords)@.dom().contains(target)),
        !copied ==> final(keywords)@ == old(keywords)@,
        copied ==> final(keywords)@.dom() == old(keywords)@.dom(),
        copied ==> final(keywords)@[target].active@ == without_repeats(old(keywords)@[source].active@),
        copied ==> final(keywords)@[target].details@ == copied_details(
            old(keywords)@[source].active@,
            old(keywords)@[source].details@,
        ),
        copied ==> final(keywords)@[target].until_end_of_turn@.len() == 0,
        copied ==> final(keywords)@[target].granted_by@.len() == 0,
        copied ==> forall|k: EntityId| k != target && #[trigger] old(keywords)@.dom().contains(k)
            ==> final(keywords)@[k] == old(keywords)@[k],
{
    let mut fresh = Keywords::new();
    match keywords.get(source) {
        Some(kw) => {
            let mut i: usize = 0;
            while i < kw.active.len()
                invariant
                    i <= kw.active@.len(),
                    fresh.active@ == without_repeats(kw.active@.take(i as int)),
                    fresh.details@ == copied_details(kw.active@.take(i as int), kw.details@),
                    fresh.until_end_of_turn@.len() == 0,
                    fresh.granted_by@.len() == 0,
                decreases kw.active@.len() - i,
            {
                let k = kw.active[i];
                proof {
                    assert(kw.active@.take(i + 1).drop_last() =~= kw.active@.take(i as int));
                }
                fresh.add(k);
                match find_detail(&kw.details, k) {
                    Some(d) => {
                        fresh.add_with_details(k, d);
                        proof {
                            let a = add_unique(without_repeats(kw.active@.take(i as int)), k);
                            assert(a.contains(k)) by {
                                if !without_repeats(kw.active@.take(i as int)).contains(k) {
                                    assert(a[a.len() - 1] == k);
                                }
                            }
                        }
                    },
                    None => {},
                }
                proof {
                    assert(fresh.details@ =~= copied_details(kw.active@.take(i + 1), kw.details@));
                }
                i = i + 1;
            }
            assert(kw.active@.take(kw.active@.len() as int) =~= kw.active@);
        },
        None => {
            return false;
        },
    }
    match keywords.find(target) {
        Some(ti) => {
            proof {
                crate::entity::lemma_key_index_unique(keywords.entries@, ti as int);
            }
            let _ = keywords.replace_at(ti, fresh);
            true
        },
        None => false,
    }
}

/// Copies the counters of `source` onto `target`: the target's counters
/// become the source's. Fails, changing nothing, when either has no
/// counters.
pub fn copy_counters(source: EntityId, target: EntityId, counters: &mut EntityMap<Counters>) -> (copied: bool)
    requires
        old(counters).wf(),
    ensures
        final(counters).wf(),
        copied == (old(counters)@.dom().contains(source) && old(counters)@.dom().contains(target)),
        !copied ==> final(counters)@ == old(counters)@,
        copied ==> final(counters)@ == old(counters)@.insert(target, old(counters)@[source]),
{
    let src = match counters.get(source) {
        Some(c) => *c,
        None => {
            return false;
        },
    };
    if !counters.contains_key(target) {
        return false;
    }
    let mut fresh = Counters::new();
    fresh.add(CounterType::PlusOnePlusOne, src.plus_one_plus_one);
    fresh.add(CounterType::MinusOneMinusOne, src.minus_one_minus_one);
    fresh.add(CounterType::Loyalty, src.loyalty);
    fresh.add(CounterType::Charge, src.charge);
    fresh.add(CounterType::Poison, src.poison);
    fresh.add(CounterType::Experience, src.experience);
    counters.insert(target, fresh);
    true
}

/// Cancelling +1/+1 against -1/-1 counters leaves at most one of the two
/// kinds, keeps the difference between them, and touches no other kind.
pub proof fn law_counters_cancel_out(c: Counters)
    ensures
        cancelled(c).plus_one_plus_one == 0 || cancelled(c).minus_one_minus_one == 0,
        cancelled(c).plus_one_plus_one - cancelled(c).minus_one_minus_one == c.plus_one_plus_one - c.minus_one_minus_one,
        cancelled(c).loyalty == c.loyalty && cancelled(c).charge == c.charge,
        cancelled(c).poison == c.poison && cancelled(c).experience == c.experience,
{
}

/// Adding counters of a kind and removing as many again restores the
/// counters.
pub proof fn law_remove_undoes_add(c: Counters, t: CounterType, n: u32)
    requires
        count(c, t) + n <= u32::MAX,
    ensures
        ({
            let added = with_count(c, t, (count(c, t) + n) as u32);
            with_count(added, t, if count(added, t) >= n { (count(added, t) - n) as u32 } else { 0 }) == c
        }),
{
}

/// Removing a keyword leaves none of it, and undoes adding it: after adding
/// and removing a keyword the keywords are those left by removing it alone.
pub proof fn law_keyword_remove_undoes_add(s: Seq<Keyword>, k: Keyword)
    ensures
        !keyword_removed(s, k).contains(k),
        keyword_removed(add_unique(s, k), k) == keyword_removed(s, k),
        !s.contains(k) ==> keyword_removed(s, k) == s,
{
    broadcast use vstd::seq_lib::group_filter_ensures;
    let p = other_than(k);
    if keyword_removed(s, k).contains(k) {
        let i = choose|i: int| 0 <= i < keyword_removed(s, k).len() && keyword_removed(s, k)[i] == k;
        assert(p(keyword_removed(s, k)[i]));
    }
    if !s.contains(k) {
        s.lemma_filter_push(k, p);
        assert(s.push(k).filter(p) == s.filter(p));
    } else {
        s.lemma_filter_push(k, p);
    }
    if !s.contains(k) {
        lemma_filter_keeps_all(s, p);
    }
}

/// Filtering a sequence all of whose items pass keeps it whole.
proof fn lemma_filter_keeps_all(s: Seq<Keyword>, p: spec_fn(Keyword) -> bool)
    requires
        forall|i: int| 0 <= i < s.len() ==> p(s[i]),
    ensures
        s.filter(p) == s,
    decreases s.len(),
{
    reveal(Seq::filter);
    if s.len() > 0 {
        lemma_filter_keeps_all(s.drop_last(), p);
        assert(s.drop_last().push(s.last()) =~= s);
    }
}

/// Every kind of counter, once.
pub open spec fn all_counter_types() -> Seq<CounterType> {
    seq![
        CounterType::PlusOnePlusOne,
        CounterType::MinusOneMinusOne,
        CounterType::Loyalty,
        CounterType::Charge,
        CounterType::Poison,
        CounterType::Experience,
    ]
}

/// How many of the kinds `ts` have at least one counter on `c`.
pub open spec fn kinds_present(c: Counters, ts: Seq<CounterType>) -> nat
    decreases ts.len(),
{
    if ts.len() == 0 {
        0
    } else {
        kinds_present(c, ts.drop_last()) + if count(c, ts.last()) > 0 { 1nat } else { 0nat }
    }
}

/// Proliferate adds exactly one counter of every kind already on a
/// permanent and adds none of the other kinds; the permanent is recorded as
/// affected once per kind it carries, after the permanents before it.
pub proof fn law_proliferate_adds_one_of_each_kind(
    cs: Seq<(EntityId, Counters)>,
    e: EntityId,
    c: Counters,
    t: CounterType,
)
    requires
        counters_below_limit(c),
    ensures
        count(proliferated(c), t) == if count(c, t) > 0 { count(c, t) + 1 } else { 0 },
        proliferate_record(cs.push((e, c))) == proliferate_record(cs) + Seq::new(
            kinds_present(c, all_counter_types()),
            |i: int| e,
        ),
{
    reveal_with_fuel(kinds_present, 7);
    let ts = all_counter_types();
    assert(ts.drop_last().drop_last().drop_last().drop_last().drop_last().drop_last() =~= Seq::<CounterType>::empty());
    assert(kinds_present(c, ts) == kinds(c));
    assert(cs.push((e, c)).drop_last() =~= cs);
}

} // verus!
