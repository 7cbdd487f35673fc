use vstd::prelude::*;

use crate::class::ShipClass;
use crate::contacts::{
    accepts_at, age, is_most_overdue, missed_at, offered_at, received, received_states, refreshed_at,
    takes, Contacts, Detection, Estimate, UPDATE_AGE,
};

verus! {

/// Angles are counted in millionths of a degree; this is a full turn.
pub const FULL_TURN: u32 = 360_000_000;

/// The beam width of a new scheduler: a sixteenth of a turn.
pub const DEFAULT_BEAM_WIDTH: u32 = FULL_TURN / 16;

/// The widest search beam: a quarter turn.
pub const MAX_BEAM_WIDTH: u32 = FULL_TURN / 4;

/// The narrowest search beam that a ship of class `own` can form.
pub open spec fn spec_min_beam_width(own: ShipClass) -> u32 {
    match own {
        ShipClass::Cruiser | ShipClass::Frigate => FULL_TURN / 3600,
        _ => FULL_TURN / 720,
    }
}

/// The narrowest search beam that a ship of class `own` can form: a
/// 3600th of a turn for the large classes, a 720th for the others.
pub fn min_beam_width(own: ShipClass) -> (r: u32)
    ensures
        r == spec_min_beam_width(own),
{
    match own {
        ShipClass::Cruiser | ShipClass::Frigate => FULL_TURN / 3600,
        _ => FULL_TURN / 720,
    }
}

/// Where the radar looks during the next tick.
#[derive(Clone, Copy, Debug, PartialEq, Eq, Structural)]
pub enum Beam {
    /// A directed scan of the contact with this id, at its predicted
    /// position one tick ahead.
    Track(u32),
    /// A search sweep: the beam's centre heading and its width.
    Sweep { heading: u32, width: u32 },
}

/// Decides each tick between a search sweep and a directed refresh of the
/// most neglected contact, and routes each scan result to the contact store.
pub struct Radar {
    update_contact_id: Option<u32>,
    scan_heading: u32,
    scan_beam_width: u32,
}

impl Radar {
    /// The contact that the scan in flight was aimed at, if any.
    pub closed spec fn spec_pending(&self) -> Option<u32> {
        self.update_contact_id
    }

    /// The heading that the search sweep has reached.
    pub closed spec fn spec_heading(&self) -> u32 {
        self.scan_heading
    }

    /// The width of the search beam.
    pub closed spec fn spec_width(&self) -> u32 {
        self.scan_beam_width
    }

    /// The heading lies within one turn and the width is neither zero nor
    /// wider than a quarter turn.
    pub open spec fn wf(&self) -> bool {
        &&& self.spec_heading() < FULL_TURN
        &&& 0 < self.spec_width() <= MAX_BEAM_WIDTH
    }

    /// A scheduler at heading 0 with the default beam width and no scan in
    /// flight.
    pub fn new() -> (r: Radar)
        ensures
            r.wf(),
            r.spec_pending() is None,
            r.spec_heading() == 0,
            r.spec_width() == DEFAULT_BEAM_WIDTH,
    {
        Radar { update_contact_id: None, scan_heading: 0, scan_beam_width: DEFAULT_BEAM_WIDTH }
    }

    /// Sets the search beam width, clamped between the narrowest beam that a
    /// ship of class `own` can form and a quarter turn.
    pub fn set_scan_beam_width(&mut self, scan_beam_width: u32, own: ShipClass)
        requires
            old(self).wf(),
        ensures
            final(self).wf(),
            final(self).spec_width() == if scan_beam_width < spec_min_beam_width(own) {
                spec_min_beam_width(own)
            } else if scan_beam_width > MAX_BEAM_WIDTH {
                MAX_BEAM_WIDTH
            } else {
                scan_beam_width
            },
            final(self).spec_heading() == old(self).spec_heading(),
            final(self).spec_pending() == old(self).spec_pending(),
    {
        let min_width = min_beam_width(own);
        self.scan_beam_width = if scan_beam_width < min_width {
            min_width
        } else if scan_beam_width > MAX_BEAM_WIDTH {
            MAX_BEAM_WIDTH
        } else {
            scan_beam_width
        };
    }

    /// The width of the search beam.
    pub fn scan_beam_width(&self) -> (r: u32)
        ensures
            r == self.spec_width(),
    {
        self.scan_beam_width
    }

    /// The heading that the search sweep has reached.
    pub fn scan_heading(&self) -> (r: u32)
        ensures
            r == self.spec_heading(),
    {
        self.scan_heading
    }

    /// The contact that the scan in flight was aimed at, if any.
    pub fn pending(&self) -> (r: Option<u32>)
        ensures
            r == self.spec_pending(),
    {
        self.update_contact_id
    }

    /// One tick of the scheduler at tick `now`. First the result of the
    /// scan aimed last tick is routed: to the contact that a directed scan
    /// was aimed at (as an update, or as a miss when nothing was detected),
    /// or else to the store as a new detection. Then, when some contact is
    /// overdue for a refresh, the beam is aimed at the most overdue one;
    /// otherwise the search sweep advances by one beam width.
    pub fn tick<K: Estimate, P>(
        &mut self,
        contacts: &mut Contacts<K, P>,
        scan: Option<Detection<K::Measurement>>,
        now: u32,
    ) -> (r: Beam)
        requires
            old(self).wf(),
            old(contacts).wf(),
            old(self).spec_pending() is None ==> (scan matches Some(d) ==> d.gauges@.len()
                == old(contacts)@.len() && ((forall|i: int|
                !takes(old(contacts)@, d.gauges@, d.class, i)) ==> old(contacts).spec_next_id()
                < u32::MAX)),
        ensures
            final(self).wf(),
            final(contacts).wf(),
            final(self).spec_width() == old(self).spec_width(),
            match (old(self).spec_pending(), scan) {
                (Some(id), Some(d)) => {
                    &&& final(contacts)@ == refreshed_at(
                        old(contacts)@,
                        id,
                        accepts_at(old(contacts)@, old(contacts).states(), id, &d.measurement, now),
                        now,
                    )
                    &&& final(contacts).states() == offered_at(
                        old(contacts)@,
                        old(contacts).states(),
                        id,
                        &d.measurement,
                        now,
                    )
                    &&& final(contacts).spec_next_id() == old(contacts).spec_next_id()
                },
                (Some(id), None) => {
                    &&& final(contacts)@ == missed_at(old(contacts)@, id)
                    &&& final(contacts).states() == old(contacts).states()
                    &&& final(contacts).spec_next_id() == old(contacts).spec_next_id()
                },
                (None, Some(d)) => {
                    &&& (final(contacts)@, final(contacts).spec_next_id()) == received(
                        old(contacts)@,
                        old(contacts).states(),
                        old(contacts).spec_next_id(),
                        d.gauges@,
                        d.class,
                        &d.measurement,
                        now,
                    )
                    &&& final(contacts).states() == received_states(
                        old(contacts)@,
                        old(contacts).states(),
                        d.gauges@,
                        d.class,
                        &d.measurement,
                        now,
                    )
                },
                (None, None) => {
                    &&& final(contacts)@ == old(contacts)@
                    &&& final(contacts).states() == old(contacts).states()
                    &&& final(contacts).spec_next_id() == old(contacts).spec_next_id()
                },
            },
            match r {
                Beam::Track(id) => {
                    &&& exists|i: int|
                        #[trigger] is_most_overdue(final(contacts)@, now, i) && final(contacts)@[i].id
                            == id
                    &&& final(self).spec_pending() == Some(id)
                    &&& final(self).spec_heading() == old(self).spec_heading()
                },
                Beam::Sweep { heading, width } => {
                    &&& forall|i: int|
                        0 <= i < final(contacts)@.len() ==> age(
                            (#[trigger] final(contacts)@[i]).last_seen,
                            now,
                        ) <= UPDATE_AGE
                    &&& width == old(self).spec_width()
                    &&& heading == (old(self).spec_heading() + old(self).spec_width()) % (
                    FULL_TURN as int)
                    &&& final(self).spec_heading() == heading
                    &&& final(self).spec_pending() is None
                },
            },
    {
        match (self.update_contact_id, scan) {
            (Some(id), Some(d)) => {
                contacts.update(id, &d.measurement, now);
            },
            (Some(id), None) => {
                contacts.record_miss(id);
            },
            (None, Some(d)) => {
                contacts.recv_contact(&d, now);
            },
            (None, None) => {},
        }
        self.update_contact_id = None;
        match contacts.contact_to_update(now) {
            Some(c) => {
                let id = c.id();
                self.update_contact_id = Some(id);
                Beam::Track(id)
            },
            None => {
                self.scan_heading = (self.scan_heading + self.scan_beam_width) % FULL_TURN;
                Beam::Sweep { heading: self.scan_heading, width: self.scan_beam_width }
            },
        }
    }
}

/// The search heading after `n` sweep ticks from heading `h0` with beam
/// width `w`: each tick advances it by `w`, wrapping at a full turn.
pub open spec fn swept_heading(h0: nat, w: nat, n: nat) -> nat
    decreases n,
{
    if n == 0 {
        h0
    } else {
        (swept_heading(h0, w, (n - 1) as nat) + w) % (FULL_TURN as nat)
    }
}

/// Sweeping from a heading within one turn, the heading after `n` ticks is
/// `h0 + n * w` wrapped to one turn, and the beam has covered a full turn
/// (`n * w` at least a turn) exactly when `n` is at least the full turn
/// divided by the width, rounded up.
pub proof fn lemma_sweep_coverage(h0: nat, w: nat, n: nat)
    requires
        h0 < FULL_TURN,
        0 < w,
    ensures
        swept_heading(h0, w, n) == (h0 + n * w) % (FULL_TURN as nat),
        n * w >= FULL_TURN <==> n >= (FULL_TURN + w - 1) / (w as int),
    decreases n,
{
    let f = FULL_TURN as int;
    if n == 0 {
        vstd::arithmetic::div_mod::lemma_small_mod(h0, f as nat);
        assert(n * w == 0) by (nonlinear_arith)
            requires
                n == 0,
        ;
        assert(swept_heading(h0, w, n) == (h0 + n * w) % (FULL_TURN as nat));
    } else {
        lemma_sweep_coverage(h0, w, (n - 1) as nat);
        let prev: int = h0 + (n - 1) * w;
        let hp: int = swept_heading(h0, w, (n - 1) as nat) as int;
        let wi: int = w as int;
        assert(prev + wi == h0 + n * w) by (nonlinear_arith)
            requires
                prev == h0 + (n - 1) * w,
                wi == w,
        ;
        vstd::arithmetic::div_mod::lemma_add_mod_noop(prev, wi, f);
        vstd::arithmetic::div_mod::lemma_add_mod_noop_right(prev % f, wi, f);
        assert(hp == prev % f);
        assert((hp + wi) % f == (prev + wi) % f);
        assert(swept_heading(h0, w, n) == (hp + wi) % f);
        assert(swept_heading(h0, w, n) == (h0 + n * w) % (FULL_TURN as nat));
    }
    let c = (f + w - 1) / (w as int);
    vstd::arithmetic::div_mod::lemma_fundamental_div_mod(f + w - 1, w as int);
    vstd::arithmetic::div_mod::lemma_mod_bound(f + w - 1, w as int);
    if n >= c {
        assert(n * w >= c * w) by (nonlinear_arith)
            requires
                n >= c,
                w > 0,
        ;
        assert(c * w == f + w - 1 - (f + w - 1) % (w as int)) by (nonlinear_arith)
            requires
                f + w - 1 == (w as int) * c + (f + w - 1) % (w as int),
        ;
    } else {
        assert(n * w <= (c - 1) * w) by (nonlinear_arith)
            requires
                n <= c - 1,
                w > 0,
        ;
        assert((c - 1) * w == f - 1 - (f + w - 1) % (w as int)) by (nonlinear_arith)
            requires
                f + w - 1 == (w as int) * c + (f + w - 1) % (w as int),
        ;
    }
}

} // verus!
