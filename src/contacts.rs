use vstd::prelude::*;

use crate::class::ShipClass;

verus! {

/// How many pending predictions a contact keeps at most.
pub const PREDICTION_CAPACITY: usize = 5;

/// A contact whose miss counter has reached this value is dropped at the
/// next tick.
pub const MAX_MISSES: u32 = 2;

/// Simulation ticks per second.
pub const TICKS_PER_SECOND: u32 = 60;

/// A contact is due for a directed refresh once more than this many ticks
/// have passed since it was last updated (an eighth of a second).
pub const UPDATE_AGE: u32 = TICKS_PER_SECOND / 8;

/// The kinematic estimate that a contact carries (a Kalman filter over
/// position and velocity, for instance). The store never reads inside it: it
/// creates one from a first detection, advances it every tick and offers it
/// each matching detection. Each operation is a function of the estimate and
/// its arguments alone; the spec functions name those functions.
pub trait Estimate: Sized {
    /// What a detection reports of the object.
    type Measurement;

    /// The estimate started from the first detection `m` of an object of
    /// class `class`.
    spec fn started(class: ShipClass, m: &Self::Measurement) -> Self;

    /// The estimate advanced by one tick.
    spec fn predicted(&self) -> Self;

    /// Whether the detection `m`, `elapsed_ticks` after the previous
    /// correction, can be folded in (it cannot when the gain is
    /// ill-conditioned, say).
    spec fn accepts(&self, m: &Self::Measurement, elapsed_ticks: u32) -> bool;

    /// The estimate with the detection `m` folded in.
    spec fn corrected(&self, m: &Self::Measurement, elapsed_ticks: u32) -> Self;

    /// A fresh estimate from the first detection of an object of class `class`.
    fn start(class: ShipClass, m: &Self::Measurement) -> (r: Self)
        ensures
            r == Self::started(class, m),
    ;

    /// Advances the estimate by one tick.
    fn predict(&mut self)
        ensures
            *final(self) == old(self).predicted(),
    ;

    /// Folds a detection in, `elapsed_ticks` after the previous correction.
    /// Returns false, leaving the estimate as it was, when the detection
    /// cannot be folded in.
    fn correct(&mut self, m: &Self::Measurement, elapsed_ticks: u32) -> (r: bool)
        ensures
            r == old(self).accepts(m, elapsed_ticks),
            *final(self) == if r {
                old(self).corrected(m, elapsed_ticks)
            } else {
                *old(self)
            },
    ;
}

/// The estimate `k` after the detection `m` was offered to it.
pub open spec fn offered<K: Estimate>(k: K, m: &K::Measurement, elapsed_ticks: u32) -> K {
    if k.accepts(m, elapsed_ticks) {
        k.corrected(m, elapsed_ticks)
    } else {
        k
    }
}

/// Ticks since `last`, as seen at tick `now`; a clock that reads earlier
/// than `last` counts as no time at all.
pub open spec fn age(last: u32, now: u32) -> nat {
    if now >= last {
        (now - last) as nat
    } else {
        0
    }
}

/// The pending predictions that are still due at time `now`, in order.
pub open spec fn unexpired<P>(s: Seq<(u64, P)>, now: u64) -> Seq<(u64, P)>
    decreases s.len(),
{
    if s.len() == 0 {
        s
    } else {
        let rest = unexpired(s.drop_last(), now);
        if s.last().0 >= now {
            rest.push(s.last())
        } else {
            rest
        }
    }
}

/// What the store knows of a contact, apart from its kinematic estimate.
/// Ticks count simulation steps; the due time of a pending prediction is a
/// key that orders as time does, and the point is the caller's own.
pub ghost struct ContactView<P> {
    pub id: u32,
    pub class: ShipClass,
    pub last_seen: u32,
    pub misses: u32,
    pub predictions: Seq<(u64, P)>,
}

/// The contact `c` after a tick at time `now`: predictions that are due
/// before `now` are gone.
pub open spec fn aged<P>(c: ContactView<P>, now: u64) -> ContactView<P> {
    ContactView { predictions: unexpired(c.predictions, now), ..c }
}

/// The contact `c` after a detection was folded in at tick `now`.
pub open spec fn seen<P>(c: ContactView<P>, now: u32) -> ContactView<P> {
    ContactView { last_seen: now, misses: 0, ..c }
}

/// The contact `c` after a failed attempt to track it: one more miss
/// (saturating), and no pending predictions.
pub open spec fn missed<P>(c: ContactView<P>) -> ContactView<P> {
    ContactView {
        misses: if c.misses < u32::MAX {
            (c.misses + 1) as u32
        } else {
            c.misses
        },
        predictions: Seq::empty(),
        ..c
    }
}

/// The contact `c` after a detection was offered to it at tick `now`:
/// `applied` tells whether the estimate took it; if not, it counts as a miss.
pub open spec fn refreshed<P>(c: ContactView<P>, applied: bool, now: u32) -> ContactView<P> {
    if applied {
        seen(c, now)
    } else {
        missed(c)
    }
}

/// The contact `c` after a prediction due at `due` was offered to it: kept
/// only while fewer than the capacity are pending.
pub open spec fn with_prediction<P>(c: ContactView<P>, due: u64, point: P) -> ContactView<P> {
    if c.predictions.len() < PREDICTION_CAPACITY {
        ContactView { predictions: c.predictions.push((due, point)), ..c }
    } else {
        c
    }
}

proof fn lemma_unexpired_len<P>(s: Seq<(u64, P)>, now: u64)
    ensures
        unexpired(s, now).len() <= s.len(),
    decreases s.len(),
{
    if s.len() > 0 {
        lemma_unexpired_len(s.drop_last(), now);
    }
}

/// All the store knows of one tracked object.
pub struct Contact<K, P> {
    class: ShipClass,
    id: u32,
    state: K,
    last_seen_tick: u32,
    tracking_miss_count: u32,
    predictions: Vec<(u64, P)>,
}

impl<K, P> View for Contact<K, P> {
    type V = ContactView<P>;

    closed spec fn view(&self) -> ContactView<P> {
        ContactView {
            id: self.id,
            class: self.class,
            last_seen: self.last_seen_tick,
            misses: self.tracking_miss_count,
            predictions: self.predictions@,
        }
    }
}

impl<K, P> Contact<K, P> {
    /// The kinematic estimate.
    pub closed spec fn spec_state(&self) -> K {
        self.state
    }

    /// A new contact, first seen at tick `now`, with no misses and no
    /// predictions.
    pub fn new(class: ShipClass, id: u32, state: K, now: u32) -> (r: Self)
        ensures
            r@ == (ContactView::<P> {
                id,
                class,
                last_seen: now,
                misses: 0,
                predictions: Seq::empty(),
            }),
            r.spec_state() == state,
    {
        Contact {
            class,
            id,
            state,
            last_seen_tick: now,
            tracking_miss_count: 0,
            predictions: Vec::with_capacity(PREDICTION_CAPACITY),
        }
    }

    /// Ticks since the last update, as seen at tick `now`.
    pub fn since_update_ticks(&self, now: u32) -> (r: u32)
        ensures
            r == age(self@.last_seen, now),
    {
        if now >= self.last_seen_tick {
            now - self.last_seen_tick
        } else {
            0
        }
    }

    /// The class of the object, fixed for the contact's lifetime.
    pub fn class(&self) -> (r: ShipClass)
        ensures
            r == self@.class,
    {
        self.class
    }

    /// The id that the store gave the contact.
    pub fn id(&self) -> (r: u32)
        ensures
            r == self@.id,
    {
        self.id
    }

    /// Consecutive failed tracking attempts since the last update.
    pub fn misses(&self) -> (r: u32)
        ensures
            r == self@.misses,
    {
        self.tracking_miss_count
    }

    /// The kinematic estimate.
    pub fn state(&self) -> (r: &K)
        ensures
            *r == self.spec_state(),
    {
        &self.state
    }

    /// The pending predictions, as `(due time, predicted point)`, oldest first.
    pub fn predictions(&self) -> (r: &Vec<(u64, P)>)
        ensures
            r@ == self@.predictions,
    {
        &self.predictions
    }

    /// Records a prediction of where the contact will be at time `due`; it
    /// is dropped when the capacity is already taken.
    pub fn record_prediction(&mut self, due: u64, point: P)
        ensures
            final(self)@ == with_prediction(old(self)@, due, point),
            final(self).spec_state() == old(self).spec_state(),
    {
        if self.predictions.len() < PREDICTION_CAPACITY {
            self.predictions.push((due, point));
        }
    }

    /// Drops the predictions that are due before time `now`.
    fn clean_old_predictions(&mut self, now: u64)
        ensures
            final(self)@ == aged(old(self)@, now),
            final(self).spec_state() == old(self).spec_state(),
    {
        let mut rest: Vec<(u64, P)> = Vec::new();
        std::mem::swap(&mut rest, &mut self.predictions);
        let ghost orig = rest@;
        let ghost mut k: int = 0;
        while rest.len() > 0
            invariant
                0 <= k <= orig.len(),
                rest@ == orig.subrange(k, orig.len() as int),
                self.predictions@ == unexpired(orig.subrange(0, k), now),
                self.id == old(self).id,
                self.class == old(self).class,
                self.state == old(self).state,
                self.last_seen_tick == old(self).last_seen_tick,
                self.tracking_miss_count == old(self).tracking_miss_count,
            decreases rest.len(),
        {
            let p = rest.remove(0);
            proof {
                assert(orig.subrange(0, k + 1).drop_last() =~= orig.subrange(0, k));
                assert(orig.subrange(k + 1, orig.len() as int) =~= orig.subrange(
                    k,
                    orig.len() as int,
                ).remove(0));
                k = k + 1;
            }
            if p.0 >= now {
                self.predictions.push(p);
            }
        }
        proof {
            assert(orig.subrange(0, k) =~= orig);
        }
    }

    /// Advances the contact by one tick at time `now`: expired predictions
    /// are dropped and the estimate is advanced.
    pub fn tick(&mut self, now: u64)
        where K: Estimate
        ensures
            final(self)@ == aged(old(self)@, now),
            final(self).spec_state() == old(self).spec_state().predicted(),
    {
        self.clean_old_predictions(now);
        self.state.predict();
    }

    /// Offers a detection, seen at tick `now`, to the estimate. If it takes
    /// it, the miss counter restarts and `now` becomes the time of the last
    /// update; if not, the attempt counts as a miss. Returns whether it took
    /// it.
    pub fn update(&mut self, m: &K::Measurement, now: u32) -> (r: bool)
        where K: Estimate
        ensures
            r == old(self).spec_state().accepts(m, age(old(self)@.last_seen, now) as u32),
            final(self)@ == refreshed(old(self)@, r, now),
            final(self).spec_state() == offered(
                old(self).spec_state(),
                m,
                age(old(self)@.last_seen, now) as u32,
            ),
    {
        let elapsed = self.since_update_ticks(now);
        if self.state.correct(m, elapsed) {
            self.last_seen_tick = now;
            self.tracking_miss_count = 0;
            true
        } else {
            self.add_miss();
            false
        }
    }

    /// Marks a failed attempt to track this contact; pending predictions
    /// are no longer trusted. Returns the number of misses since the last
    /// update.
    pub fn add_miss(&mut self) -> (r: u32)
        ensures
            final(self)@ == missed(old(self)@),
            r == final(self)@.misses,
            final(self).spec_state() == old(self).spec_state(),
    {
        if self.tracking_miss_count < u32::MAX {
            self.tracking_miss_count = self.tracking_miss_count + 1;
        }
        self.predictions.clear();
        self.tracking_miss_count
    }
}

/// How far a detection lies from where a contact is predicted to be, and how
/// far it may lie and still be taken for that contact, in one unit of length
/// for both (any unit that keeps the order of lengths).
#[derive(Clone, Copy, Debug, PartialEq, Eq, Structural)]
pub struct Gauge {
    pub distance: u64,
    pub radius: u64,
}

/// One sensor report: the class of the object, one gauge for each contact of
/// the store (in the store's order), and the measurement itself.
pub struct Detection<M> {
    pub class: ShipClass,
    pub gauges: Vec<Gauge>,
    pub measurement: M,
}

/// What became of a detection offered to the store.
#[derive(Clone, Copy, Debug, PartialEq, Eq, Structural)]
pub enum Association {
    /// It was taken for the contact with this id, which was updated with it.
    Matched(u32),
    /// No contact could take it: a contact with this fresh id was created.
    Created(u32),
}

/// Whether some contact of `s` has id `id`.
pub open spec fn has_id<P>(s: Seq<ContactView<P>>, id: u32) -> bool {
    exists|i: int| 0 <= i < s.len() && (#[trigger] s[i]).id == id
}

/// The contacts after each one's tick at time `now`: those that have missed
/// too often are gone, the others have aged.
pub open spec fn survivors<P>(s: Seq<ContactView<P>>, now: u64) -> Seq<ContactView<P>>
    decreases s.len(),
{
    if s.len() == 0 {
        s
    } else {
        let rest = survivors(s.drop_last(), now);
        if s.last().misses < MAX_MISSES {
            rest.push(aged(s.last(), now))
        } else {
            rest
        }
    }
}

/// The contacts after a detection was offered at tick `now` to the one with
/// id `id`.
pub open spec fn refreshed_at<P>(s: Seq<ContactView<P>>, id: u32, applied: bool, now: u32) -> Seq<
    ContactView<P>,
> {
    Seq::new(
        s.len(),
        |i: int|
            if s[i].id == id {
                refreshed(s[i], applied, now)
            } else {
                s[i]
            },
    )
}

/// The contacts after a failed attempt to track the one with id `id`.
pub open spec fn missed_at<P>(s: Seq<ContactView<P>>, id: u32) -> Seq<ContactView<P>> {
    Seq::new(s.len(), |i: int| if s[i].id == id { missed(s[i]) } else { s[i] })
}

/// The contacts after a prediction was offered to the one with id `id`.
pub open spec fn predicted_at<P>(s: Seq<ContactView<P>>, id: u32, due: u64, point: P) -> Seq<
    ContactView<P>,
> {
    Seq::new(
        s.len(),
        |i: int|
            if s[i].id == id {
                with_prediction(s[i], due, point)
            } else {
                s[i]
            },
    )
}

/// Contact `i` of `s` has the detection's class and is, among those that
/// have it, the nearest to the detection; of several at the least distance
/// it comes first.
pub open spec fn is_nearest<P>(s: Seq<ContactView<P>>, g: Seq<Gauge>, class: ShipClass, i: int) -> bool {
    &&& 0 <= i < s.len()
    &&& s[i].class == class
    &&& forall|j: int|
        0 <= j < s.len() && s[j].class == class ==> g[i].distance <= (#[trigger] g[j]).distance
    &&& forall|j: int|
        0 <= j < i && s[j].class == class ==> g[i].distance < (#[trigger] g[j]).distance
}

/// Contact `i` is the nearest of its class to the detection, and near
/// enough to take it.
pub open spec fn takes<P>(s: Seq<ContactView<P>>, g: Seq<Gauge>, class: ShipClass, i: int) -> bool {
    is_nearest(s, g, class, i) && g[i].distance < g[i].radius
}

/// A contact first seen at tick `now`.
pub open spec fn fresh<P>(id: u32, class: ShipClass, now: u32) -> ContactView<P> {
    ContactView { id, class, last_seen: now, misses: 0, predictions: Seq::empty() }
}

/// Whether the estimate of the contact with id `id`, among contacts `s`
/// with estimates `st`, takes the detection `m` seen at tick `now`.
pub open spec fn accepts_at<K: Estimate, P>(
    s: Seq<ContactView<P>>,
    st: Seq<K>,
    id: u32,
    m: &K::Measurement,
    now: u32,
) -> bool {
    exists|i: int|
        0 <= i < s.len() && (#[trigger] s[i]).id == id && st[i].accepts(
            m,
            age(s[i].last_seen, now) as u32,
        )
}

/// The estimates `st` of contacts `s` after the detection `m`, seen at tick
/// `now`, was offered to the one with id `id`.
pub open spec fn offered_at<K: Estimate, P>(
    s: Seq<ContactView<P>>,
    st: Seq<K>,
    id: u32,
    m: &K::Measurement,
    now: u32,
) -> Seq<K> {
    Seq::new(
        st.len(),
        |j: int|
            if s[j].id == id {
                offered(st[j], m, age(s[j].last_seen, now) as u32)
            } else {
                st[j]
            },
    )
}

/// The estimates `st` of contacts `s` after a tick: those of the contacts
/// that survive, each advanced once.
pub open spec fn survivor_states<K: Estimate, P>(s: Seq<ContactView<P>>, st: Seq<K>) -> Seq<K>
    decreases s.len(),
{
    if s.len() == 0 {
        Seq::empty()
    } else {
        let rest = survivor_states(s.drop_last(), st.drop_last());
        if s.last().misses < MAX_MISSES {
            rest.push(st.last().predicted())
        } else {
            rest
        }
    }
}

/// The contacts and the next id after the detection `m` of class `class`,
/// with gauges `g`, was offered at tick `now` to contacts `s` with estimates
/// `st` and next id `next`.
pub open spec fn received<K: Estimate, P>(
    s: Seq<ContactView<P>>,
    st: Seq<K>,
    next: u32,
    g: Seq<Gauge>,
    class: ShipClass,
    m: &K::Measurement,
    now: u32,
) -> (Seq<ContactView<P>>, u32) {
    if exists|i: int| takes(s, g, class, i) {
        let i = choose|i: int| takes(s, g, class, i);
        (
            refreshed_at(s, s[i].id, st[i].accepts(m, age(s[i].last_seen, now) as u32), now),
            next,
        )
    } else {
        (s.push(fresh(next, class, now)), (next + 1) as u32)
    }
}

/// The estimates after the same detection: the taking contact's estimate
/// was offered it, or a new estimate was started from it.
pub open spec fn received_states<K: Estimate, P>(
    s: Seq<ContactView<P>>,
    st: Seq<K>,
    g: Seq<Gauge>,
    class: ShipClass,
    m: &K::Measurement,
    now: u32,
) -> Seq<K> {
    if exists|i: int| takes(s, g, class, i) {
        let i = choose|i: int| takes(s, g, class, i);
        offered_at(s, st, s[i].id, m, now)
    } else {
        st.push(K::started(class, m))
    }
}

/// Contact `i` of `s` is due for a refresh at tick `now` and has waited the
/// longest; of several that have waited as long it comes first.
pub open spec fn is_most_overdue<P>(s: Seq<ContactView<P>>, now: u32, i: int) -> bool {
    &&& 0 <= i < s.len()
    &&& age(s[i].last_seen, now) > UPDATE_AGE
    &&& forall|j: int|
        0 <= j < s.len() ==> age((#[trigger] s[j]).last_seen, now) <= age(s[i].last_seen, now)
    &&& forall|j: int| 0 <= j < i ==> age((#[trigger] s[j]).last_seen, now) < age(s[i].last_seen, now)
}

/// The tracked contacts, keyed by an id that is handed out once and never
/// again.
pub struct Contacts<K, P> {
    contacts: Vec<Contact<K, P>>,
    next_id: u32,
}

impl<K, P> View for Contacts<K, P> {
    type V = Seq<ContactView<P>>;

    /// The contacts, in the order in which they were created.
    closed spec fn view(&self) -> Seq<ContactView<P>> {
        self.contacts@.map_values(|c: Contact<K, P>| c@)
    }
}

impl<K, P> Contacts<K, P> {
    /// The contacts themselves, estimates included, in the order of the view.
    pub closed spec fn spec_contacts(&self) -> Seq<Contact<K, P>> {
        self.contacts@
    }

    /// The contacts' estimates, in the order of the view.
    pub open spec fn states(&self) -> Seq<K> {
        self.spec_contacts().map_values(|c: Contact<K, P>| c.spec_state())
    }

    /// The id that the next new contact will get.
    pub closed spec fn spec_next_id(&self) -> u32 {
        self.next_id
    }

    /// Ids increase in the order of creation and are all below the next
    /// one; no contact holds more predictions than the capacity.
    pub open spec fn wf(&self) -> bool {
        &&& forall|i: int, j: int|
            0 <= i < j < self@.len() ==> (#[trigger] self@[i]).id < (#[trigger] self@[j]).id
        &&& forall|i: int| 0 <= i < self@.len() ==> (#[trigger] self@[i]).id < self.spec_next_id()
        &&& forall|i: int|
            0 <= i < self@.len() ==> (#[trigger] self@[i]).predictions.len() <= PREDICTION_CAPACITY
    }

    /// An empty store; the first contact will get id 0.
    pub fn new() -> (r: Self)
        ensures
            r.wf(),
            r@ == Seq::<ContactView<P>>::empty(),
            r.spec_next_id() == 0,
    {
        let r = Contacts { contacts: Vec::new(), next_id: 0 };
        assert(r@ =~= Seq::<ContactView<P>>::empty());
        r
    }

    /// Number of contacts.
    pub fn len(&self) -> (r: usize)
        ensures
            r == self@.len(),
    {
        self.contacts.len()
    }

    /// The id that the next new contact will get.
    pub fn next_id(&self) -> (r: u32)
        ensures
            r == self.spec_next_id(),
    {
        self.next_id
    }

    /// Position in the store of the contact with id `id`, if any.
    fn index_of(&self, id: u32) -> (r: Option<usize>)
        requires
            self.wf(),
        ensures
            match r {
                Some(i) => i < self@.len() && self@[i as int].id == id,
                None => !has_id(self@, id),
            },
    {
        let mut i: usize = 0;
        while i < self.contacts.len()
            invariant
                i <= self@.len(),
                self@.len() == self.contacts@.len(),
                forall|j: int| 0 <= j < i ==> (#[trigger] self@[j]).id != id,
            decreases self.contacts.len() - i,
        {
            if self.contacts[i].id() == id {
                return Some(i);
            }
            i = i + 1;
        }
        None
    }

    /// The contact with id `id`, if any.
    pub fn at(&self, id: u32) -> (r: Option<&Contact<K, P>>)
        requires
            self.wf(),
        ensures
            match r {
                Some(c) => c@.id == id && exists|i: int|
                    0 <= i < self@.len() && self@[i] == c@ && self.spec_contacts()[i] == *c,
                None => !has_id(self@, id),
            },
    {
        match self.index_of(id) {
            Some(i) => Some(&self.contacts[i]),
            None => None,
        }
    }

    /// The contacts, in the order in which they were created.
    pub fn as_slice(&self) -> (r: &[Contact<K, P>])
        ensures
            r@.map_values(|c: Contact<K, P>| c@) == self@,
    {
        self.contacts.as_slice()
    }

    /// Ends a tick at time `now`: contacts that have missed too often are
    /// dropped, the others drop their expired predictions and advance their
    /// estimates.
    pub fn tick(&mut self, now: u64)
        where K: Estimate
        requires
            old(self).wf(),
        ensures
            final(self).wf(),
            final(self)@ == survivors(old(self)@, now),
            final(self).states() == survivor_states(old(self)@, old(self).states()),
            final(self).spec_next_id() == old(self).spec_next_id(),
    {
        let mut rest: Vec<Contact<K, P>> = Vec::new();
        std::mem::swap(&mut rest, &mut self.contacts);
        let ghost orig = rest@.map_values(|c: Contact<K, P>| c@);
        let ghost orig_st = rest@.map_values(|c: Contact<K, P>| c.spec_state());
        let ghost mut k: int = 0;
        proof {
            assert(self@ =~= survivors(orig.subrange(0, 0), now));
            assert(self.states() =~= survivor_states(orig.subrange(0, 0), orig_st.subrange(0, 0)));
            assert(rest@.map_values(|c: Contact<K, P>| c@) =~= orig.subrange(0, orig.len() as int));
            assert(rest@.map_values(|c: Contact<K, P>| c.spec_state()) =~= orig_st.subrange(0, orig.len() as int));
        }
        while rest.len() > 0
            invariant
                0 <= k <= orig.len(),
                rest@.len() == orig.len() - k,
                rest@.map_values(|c: Contact<K, P>| c@) == orig.subrange(k, orig.len() as int),
                self@ == survivors(orig.subrange(0, k), now),
                orig_st.len() == orig.len(),
                rest@.map_values(|c: Contact<K, P>| c.spec_state()) == orig_st.subrange(k, orig.len() as int),
                self.states() == survivor_states(orig.subrange(0, k), orig_st.subrange(0, k)),
                self.next_id == old(self).next_id,
                forall|i: int, j: int| 0 <= i < j < orig.len() ==> (#[trigger] orig[i]).id < (#[trigger] orig[j]).id,
                forall|i: int| 0 <= i < orig.len() ==> (#[trigger] orig[i]).id < self.next_id,
                forall|i: int| 0 <= i < orig.len() ==> (#[trigger] orig[i]).predictions.len() <= PREDICTION_CAPACITY,
                forall|j: int, i: int| 0 <= j < self@.len() && k <= i < orig.len() ==> (#[trigger] self@[j]).id < (#[trigger] orig[i]).id,
                self.wf(),
            decreases rest.len(),
        {
            let ghost rest_before = rest@;
            let mut c = rest.remove(0);
            let ghost before = self@;
            let ghost before_st = self.states();
            proof {
                assert(rest_before.map_values(|c: Contact<K, P>| c@)[0] == orig.subrange(k, orig.len() as int)[0]);
                assert(c@ == orig[k]);
                assert(rest_before.map_values(|c: Contact<K, P>| c.spec_state())[0] == orig_st.subrange(k, orig.len() as int)[0]);
                assert(c.spec_state() == orig_st[k]);
                assert(orig.subrange(0, k + 1).drop_last() =~= orig.subrange(0, k));
                assert(orig_st.subrange(0, k + 1).drop_last() =~= orig_st.subrange(0, k));
                assert(orig_st.subrange(k + 1, orig.len() as int) =~= orig_st.subrange(k, orig.len() as int).drop_first());
                assert(rest@.map_values(|c: Contact<K, P>| c.spec_state()) =~= orig_st.subrange(k + 1, orig.len() as int));
                assert(orig.subrange(k + 1, orig.len() as int) =~= orig.subrange(k, orig.len() as int).drop_first());
                assert(rest@.map_values(|c: Contact<K, P>| c@) =~= orig.subrange(k + 1, orig.len() as int));
            }
            if c.misses() < MAX_MISSES {
                c.tick(now);
                proof {
                    lemma_unexpired_len(orig[k].predictions, now);
                }
                self.contacts.push(c);
                proof {
                    assert(self@ =~= before.push(aged(orig[k], now)));
                    assert(self.states() =~= before_st.push(orig_st[k].predicted()));
                }
            }
            proof {
                k = k + 1;
            }
        }
        proof {
            assert(orig.subrange(0, k) =~= orig);
            assert(orig_st.subrange(0, k) =~= orig_st);
        }
    }

    /// The contact that has waited longest for a refresh, among those that
    /// have waited more than the refresh age at tick `now`; the earliest
    /// created of several that have waited as long. None when all are fresh.
    pub fn contact_to_update(&self, now: u32) -> (r: Option<&Contact<K, P>>)
        ensures
            match r {
                Some(c) => exists|i: int|
                    is_most_overdue(self@, now, i) && self@[i] == c@ && self.spec_contacts()[i] == *c,
                None => forall|i: int|
                    0 <= i < self@.len() ==> age((#[trigger] self@[i]).last_seen, now) <= UPDATE_AGE,
            },
    {
        let mut best: Option<usize> = None;
        let mut best_age: u32 = 0;
        let mut i: usize = 0;
        while i < self.contacts.len()
            invariant
                i <= self@.len(),
                self@.len() == self.contacts@.len(),
                match best {
                    None => forall|j: int| 0 <= j < i ==> age((#[trigger] self@[j]).last_seen, now) <= UPDATE_AGE,
                    Some(b) => {
                        &&& b < i
                        &&& best_age == age(self@[b as int].last_seen, now)
                        &&& best_age > UPDATE_AGE
                        &&& forall|j: int| 0 <= j < i ==> age((#[trigger] self@[j]).last_seen, now) <= best_age
                        &&& forall|j: int| 0 <= j < b ==> age((#[trigger] self@[j]).last_seen, now) < best_age
                    },
                },
            decreases self.contacts.len() - i,
        {
            let a = self.contacts[i].since_update_ticks(now);
            if a > UPDATE_AGE && (best.is_none() || a > best_age) {
                best = Some(i);
                best_age = a;
            }
            i = i + 1;
        }
        match best {
            Some(b) => {
                assert(is_most_overdue(self@, now, b as int));
                Some(&self.contacts[b])
            },
            None => None,
        }
    }

    /// Ids are unique: the contact at `i` is the only one with its id.
    proof fn lemma_unique(&self, i: int)
        requires
            self.wf(),
            0 <= i < self@.len(),
        ensures
            forall|j: int| 0 <= j < self@.len() && j != i ==> (#[trigger] self@[j]).id != self@[i].id,
    {
        assert forall|j: int| 0 <= j < self@.len() && j != i implies (#[trigger] self@[j]).id != self@[i].id by {
            if j < i {
                assert(self@[j].id < self@[i].id);
            } else {
                assert(self@[i].id < self@[j].id);
            }
        }
    }

    /// Offers a detection, seen at tick `now`, to the contact with id `id`;
    /// if its estimate does not take it, the attempt counts as a miss. None
    /// when there is no such contact; else whether the estimate took it.
    pub fn update(&mut self, id: u32, m: &K::Measurement, now: u32) -> (r: Option<bool>)
        where K: Estimate
        requires
            old(self).wf(),
        ensures
            final(self).wf(),
            r == if has_id(old(self)@, id) {
                Some(accepts_at(old(self)@, old(self).states(), id, m, now))
            } else {
                None
            },
            final(self)@ == refreshed_at(old(self)@, id, r == Some(true), now),
            final(self).states() == offered_at(old(self)@, old(self).states(), id, m, now),
            final(self).spec_next_id() == old(self).spec_next_id(),
    {
        match self.index_of(id) {
            None => {
                assert(self@ =~= refreshed_at(self@, id, false, now));
                assert(self.states() =~= offered_at(self@, self.states(), id, m, now));
                None
            },
            Some(i) => {
                proof {
                    self.lemma_unique(i as int);
                }
                let ghost before = self@;
                let ghost before_st = self.states();
                let ok = self.contacts[i].update(m, now);
                proof {
                    assert(self@ =~= refreshed_at(before, id, ok, now));
                    assert(self.states() =~= offered_at(before, before_st, id, m, now));
                    if accepts_at(before, before_st, id, m, now) {
                        let j = choose|j: int|
                            0 <= j < before.len() && (#[trigger] before[j]).id == id && before_st[j].accepts(
                                m,
                                age(before[j].last_seen, now) as u32,
                            );
                        assert(j == i);
                    }
                }
                Some(ok)
            },
        }
    }

    /// Marks a failed attempt to track the contact with id `id`. Returns its
    /// misses since the last update, or None when there is no such contact.
    pub fn record_miss(&mut self, id: u32) -> (r: Option<u32>)
        requires
            old(self).wf(),
        ensures
            final(self).wf(),
            r is Some <==> has_id(old(self)@, id),
            final(self)@ == missed_at(old(self)@, id),
            final(self).states() == old(self).states(),
            r matches Some(n) ==> exists|i: int|
                0 <= i < final(self)@.len() && final(self)@[i].id == id && final(self)@[i].misses == n,
            final(self).spec_next_id() == old(self).spec_next_id(),
    {
        match self.index_of(id) {
            None => {
                assert(self@ =~= missed_at(self@, id));
                None
            },
            Some(i) => {
                proof {
                    self.lemma_unique(i as int);
                }
                let ghost before = self@;
                let n = self.contacts[i].add_miss();
                proof {
                    assert(self@ =~= missed_at(before, id));
                    assert(self.states() =~= old(self).states());
                    assert(self@[i as int].id == id);
                }
                Some(n)
            },
        }
    }

    /// Records, for the contact with id `id`, a prediction of where it will
    /// be at time `due`. Returns false when there is no such contact.
    pub fn record_prediction(&mut self, id: u32, due: u64, point: P) -> (r: bool)
        requires
            old(self).wf(),
        ensures
            final(self).wf(),
            r <==> has_id(old(self)@, id),
            final(self)@ == predicted_at(old(self)@, id, due, point),
            final(self).states() == old(self).states(),
            final(self).spec_next_id() == old(self).spec_next_id(),
    {
        match self.index_of(id) {
            None => {
                assert(self@ =~= predicted_at(self@, id, due, point));
                false
            },
            Some(i) => {
                proof {
                    self.lemma_unique(i as int);
                }
                let ghost before = self@;
                self.contacts[i].record_prediction(due, point);
                proof {
                    assert(self@ =~= predicted_at(before, id, due, point));
                    assert(self.states() =~= old(self).states());
                }
                true
            },
        }
    }

    /// Position of the contact that would take the detection `d`: the
    /// nearest of its class, if it lies within its acceptance radius.
    fn nearest_taker<M>(&self, d: &Detection<M>) -> (r: Option<usize>)
        requires
            d.gauges@.len() == self@.len(),
        ensures
            match r {
                Some(b) => takes(self@, d.gauges@, d.class, b as int),
                None => forall|i: int| !takes(self@, d.gauges@, d.class, i),
            },
    {
        let ghost s = self@;
        let ghost g = d.gauges@;
        let mut best: Option<usize> = None;
        let mut i: usize = 0;
        while i < self.contacts.len()
            invariant
                i <= s.len(),
                s == self@,
                s.len() == self.contacts@.len(),
                g == d.gauges@,
                g.len() == s.len(),
                match best {
                    None => forall|j: int| 0 <= j < i ==> (#[trigger] s[j]).class != d.class,
                    Some(b) => {
                        &&& b < i
                        &&& s[b as int].class == d.class
                        &&& forall|j: int|
                            0 <= j < i && s[j].class == d.class ==> g[b as int].distance <= (#[trigger] g[j]).distance
                        &&& forall|j: int|
                            0 <= j < b && s[j].class == d.class ==> g[b as int].distance < (#[trigger] g[j]).distance
                    },
                },
            decreases self.contacts.len() - i,
        {
            if self.contacts[i].class() == d.class {
                match best {
                    None => {
                        best = Some(i);
                    },
                    Some(b) => {
                        if d.gauges[i].distance < d.gauges[b].distance {
                            best = Some(i);
                        }
                    },
                }
            }
            i = i + 1;
        }
        proof {
            if let Some(b) = best {
                assert(is_nearest(s, g, d.class, b as int));
                assert forall|i: int| takes(s, g, d.class, i) implies i == b by {
                    if i < b {
                        assert(g[b as int].distance < g[i].distance);
                    } else if i > b {
                        assert(g[i].distance < g[b as int].distance);
                    }
                }
            }
        }
        match best {
            Some(b) => if d.gauges[b].distance < d.gauges[b].radius {
                Some(b)
            } else {
                None
            },
            None => None,
        }
    }

    /// The id of the contact that would take the detection `d`: the nearest
    /// of its class (the earliest created of several equally near), if it
    /// lies within its acceptance radius. None when a new contact would be
    /// created instead.
    pub fn matching<M>(&self, d: &Detection<M>) -> (r: Option<u32>)
        requires
            d.gauges@.len() == self@.len(),
        ensures
            match r {
                Some(id) => exists|i: int| #[trigger] takes(self@, d.gauges@, d.class, i) && self@[i].id == id,
                None => forall|i: int| !takes(self@, d.gauges@, d.class, i),
            },
    {
        match self.nearest_taker(d) {
            Some(b) => Some(self.contacts[b].id()),
            None => None,
        }
    }

    /// Offers a detection, seen at tick `now`, to the store. Among the
    /// contacts of the detection's class, the nearest (the earliest created
    /// of several equally near) takes it if it lies within that contact's
    /// acceptance radius, and is offered it as by `update`; otherwise a new
    /// contact is created with the next id, its estimate started from the
    /// detection.
    pub fn recv_contact(&mut self, d: &Detection<K::Measurement>, now: u32) -> (r: Association)
        where K: Estimate
        requires
            old(self).wf(),
            d.gauges@.len() == old(self)@.len(),
            (forall|i: int| !takes(old(self)@, d.gauges@, d.class, i)) ==> old(self).spec_next_id()
                < u32::MAX,
        ensures
            final(self).wf(),
            (final(self)@, final(self).spec_next_id()) == received(
                old(self)@,
                old(self).states(),
                old(self).spec_next_id(),
                d.gauges@,
                d.class,
                &d.measurement,
                now,
            ),
            final(self).states() == received_states(
                old(self)@,
                old(self).states(),
                d.gauges@,
                d.class,
                &d.measurement,
                now,
            ),
            match r {
                Association::Matched(id) => exists|i: int|
                    #[trigger] takes(old(self)@, d.gauges@, d.class, i) && old(self)@[i].id == id,
                Association::Created(id) => {
                    &&& forall|i: int| !takes(old(self)@, d.gauges@, d.class, i)
                    &&& id == old(self).spec_next_id()
                },
            },
    {
        let ghost s = self@;
        let ghost st = self.states();
        let ghost g = d.gauges@;
        match self.nearest_taker(d) {
            Some(b) => {
                let id = self.contacts[b].id();
                proof {
                    self.lemma_unique(b as int);
                    let i = choose|i: int| takes(s, g, d.class, i);
                    if i != b {
                        if i < b {
                            assert(g[b as int].distance < g[i].distance);
                        } else {
                            assert(g[i].distance < g[b as int].distance);
                        }
                    }
                }
                let ok = self.update(id, &d.measurement, now);
                proof {
                    assert(takes(s, g, d.class, b as int) && s[b as int].id == id);
                    if st[b as int].accepts(&d.measurement, age(s[b as int].last_seen, now) as u32) {
                        assert(accepts_at(s, st, id, &d.measurement, now));
                    } else if accepts_at(s, st, id, &d.measurement, now) {
                        let j = choose|j: int|
                            0 <= j < s.len() && (#[trigger] s[j]).id == id && st[j].accepts(
                                &d.measurement,
                                age(s[j].last_seen, now) as u32,
                            );
                        assert(j == b);
                    }
                }
                Association::Matched(id)
            },
            None => {
                let id = self.next_id;
                let state = K::start(d.class, &d.measurement);
                self.contacts.push(Contact::new(d.class, id, state, now));
                self.next_id = self.next_id + 1;
                proof {
                    assert(self@ =~= s.push(fresh(id, d.class, now)));
                    assert(self.states() =~= st.push(K::started(d.class, &d.measurement)));
                }
                Association::Created(id)
            },
        }
    }
}

/// Every contact that survives a tick was there before, with the same id and
/// fewer misses than the limit.
proof fn lemma_survivors_from<P>(s: Seq<ContactView<P>>, now: u64)
    ensures
        forall|j: int|
            0 <= j < survivors(s, now).len() ==> exists|i: int|
                0 <= i < s.len() && (#[trigger] s[i]).id == (#[trigger] survivors(s, now)[j]).id
                    && s[i].misses < MAX_MISSES,
    decreases s.len(),
{
    if s.len() > 0 {
        let rest = s.drop_last();
        lemma_survivors_from(rest, now);
        assert forall|j: int| 0 <= j < survivors(s, now).len() implies exists|i: int|
            0 <= i < s.len() && (#[trigger] s[i]).id == (#[trigger] survivors(s, now)[j]).id
                && s[i].misses < MAX_MISSES by {
            if j < survivors(rest, now).len() {
                let i = choose|i: int|
                    0 <= i < rest.len() && (#[trigger] rest[i]).id == (#[trigger] survivors(
                        rest,
                        now,
                    )[j]).id && rest[i].misses < MAX_MISSES;
                assert(s[i] == rest[i]);
            } else {
                assert(s[s.len() - 1] == s.last());
            }
        }
    }
}

/// A contact that misses twice in a row, without an update between, is
/// gone after the next tick, whatever its misses were before.
pub proof fn lemma_two_misses_evict<P>(s: Seq<ContactView<P>>, id: u32, now: u64)
    requires
        forall|i: int, j: int| 0 <= i < j < s.len() ==> (#[trigger] s[i]).id != (#[trigger] s[j]).id,
    ensures
        !has_id(survivors(missed_at(missed_at(s, id), id), now), id),
{
    let t = missed_at(missed_at(s, id), id);
    lemma_survivors_from(t, now);
    let r = survivors(t, now);
    if has_id(r, id) {
        let j = choose|j: int| 0 <= j < r.len() && (#[trigger] r[j]).id == id;
        let i = choose|i: int|
            0 <= i < t.len() && (#[trigger] t[i]).id == (#[trigger] r[j]).id && t[i].misses < MAX_MISSES;
        assert(t[i] == missed(missed(s[i])));
    }
}

/// A detection that no contact of its class could take (each lies at least
/// its acceptance radius away) starts a new contact with the next id, its
/// estimate started from the detection, and leaves the others as they were.
pub proof fn lemma_unmatched_detection_creates<K: Estimate, P>(
    s: Seq<ContactView<P>>,
    st: Seq<K>,
    next: u32,
    g: Seq<Gauge>,
    class: ShipClass,
    m: &K::Measurement,
    now: u32,
)
    requires
        g.len() == s.len(),
        forall|i: int| 0 <= i < s.len() && (#[trigger] s[i]).class == class ==> g[i].distance >= g[i].radius,
    ensures
        received(s, st, next, g, class, m, now) == (s.push(fresh(next, class, now)), (next + 1) as u32),
        received_states(s, st, g, class, m, now) == st.push(K::started(class, m)),
{
    assert(forall|i: int| !takes(s, g, class, i));
}

/// A detection that lies within the acceptance radius of contact `i` of its
/// class, with every other contact of that class farther away (or as far and
/// created later), is offered to contact `i` and to no other: no contact is
/// created, contact `i` is refreshed as its estimate decides, and the others
/// are left as they were.
pub proof fn lemma_single_match_updates<K: Estimate, P>(
    s: Seq<ContactView<P>>,
    st: Seq<K>,
    next: u32,
    g: Seq<Gauge>,
    class: ShipClass,
    m: &K::Measurement,
    now: u32,
    i: int,
)
    requires
        forall|a: int, b: int| 0 <= a < b < s.len() ==> (#[trigger] s[a]).id != (#[trigger] s[b]).id,
        g.len() == s.len(),
        st.len() == s.len(),
        0 <= i < s.len(),
        s[i].class == class,
        g[i].distance < g[i].radius,
        forall|j: int|
            0 <= j < s.len() && j != i && (#[trigger] s[j]).class == class ==> g[j].distance > g[i].distance
                || (g[j].distance == g[i].distance && j > i),
    ensures
        received(s, st, next, g, class, m, now).1 == next,
        received(s, st, next, g, class, m, now).0.len() == s.len(),
        received(s, st, next, g, class, m, now).0[i] == refreshed(
            s[i],
            st[i].accepts(m, age(s[i].last_seen, now) as u32),
            now,
        ),
        received_states(s, st, g, class, m, now).len() == st.len(),
        received_states(s, st, g, class, m, now)[i] == offered(st[i], m, age(s[i].last_seen, now) as u32),
        forall|j: int|
            0 <= j < s.len() && j != i ==> (#[trigger] received(s, st, next, g, class, m, now).0[j]) == s[j]
                && received_states(s, st, g, class, m, now)[j] == st[j],
{
    assert forall|j: int| 0 <= j < s.len() && s[j].class == class implies g[i].distance <= (
    #[trigger] g[j]).distance by {
        if j != i {
            assert(s[j].class == class);
        }
    }
    assert forall|j: int| 0 <= j < i && s[j].class == class implies g[i].distance < (
    #[trigger] g[j]).distance by {
        assert(s[j].class == class);
    }
    assert(takes(s, g, class, i));
    let k = choose|k: int| takes(s, g, class, k);
    if k != i {
        if k < i {
            assert(s[k].class == class);
            assert(g[k].distance > g[i].distance || (g[k].distance == g[i].distance && k > i));
        } else {
            assert(g[k].distance < g[i].distance);
        }
    }
    assert forall|j: int| 0 <= j < s.len() && j != i implies s[j].id != s[i].id by {
        if j < i {
            assert(s[j].id != s[i].id);
        } else {
            assert(s[i].id != s[j].id);
        }
    }
}

} // verus!
