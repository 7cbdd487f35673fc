use fire_control::class::ShipClass;
use fire_control::contacts::{
    Association, Contact, Contacts, Detection, Estimate, Gauge, PREDICTION_CAPACITY, UPDATE_AGE,
};

/// An estimate that only counts what was done to it.
#[derive(Debug, Clone, PartialEq)]
struct Counter {
    class: ShipClass,
    predicts: u32,
    corrections: u32,
    last_elapsed: u32,
}

/// A measurement that the counter takes or refuses.
struct Reading {
    usable: bool,
}

impl Estimate for Counter {
    type Measurement = Reading;

    fn started(class: ShipClass, _m: &Reading) -> Counter {
        Counter { class, predicts: 0, corrections: 0, last_elapsed: 0 }
    }

    fn predicted(&self) -> Counter {
        Counter { predicts: self.predicts + 1, ..self.clone() }
    }

    fn accepts(&self, m: &Reading, _elapsed_ticks: u32) -> bool {
        m.usable
    }

    fn corrected(&self, _m: &Reading, elapsed_ticks: u32) -> Counter {
        Counter { corrections: self.corrections + 1, last_elapsed: elapsed_ticks, ..self.clone() }
    }

    fn start(class: ShipClass, m: &Reading) -> Counter {
        Counter::started(class, m)
    }

    fn predict(&mut self) {
        *self = self.predicted();
    }

    fn correct(&mut self, m: &Reading, elapsed_ticks: u32) -> bool {
        if self.accepts(m, elapsed_ticks) {
            *self = self.corrected(m, elapsed_ticks);
            true
        } else {
            false
        }
    }
}

type Store = Contacts<Counter, (i32, i32)>;

fn far(n: usize) -> Vec<Gauge> {
    vec![Gauge { distance: 1000, radius: 50 }; n]
}

fn detection(class: ShipClass, gauges: Vec<Gauge>) -> Detection<Reading> {
    Detection { class, gauges, measurement: Reading { usable: true } }
}

fn store_with(classes: &[ShipClass], now: u32) -> Store {
    let mut store = Store::new();
    for &c in classes {
        let n = store.len();
        store.recv_contact(&detection(c, far(n)), now);
    }
    store
}

#[test]
fn new_store_is_empty() {
    let store = Store::new();
    assert_eq!(store.len(), 0);
    assert_eq!(store.next_id(), 0);
    assert!(store.at(0).is_none());
    assert!(store.contact_to_update(1000).is_none());
}

#[test]
fn first_detection_creates_contact_zero() {
    let mut store = Store::new();
    let r = store.recv_contact(&detection(ShipClass::Fighter, vec![]), 12);
    assert_eq!(r, Association::Created(0));
    assert_eq!(store.next_id(), 1);
    let c = store.at(0).unwrap();
    assert_eq!(c.id(), 0);
    assert_eq!(c.class(), ShipClass::Fighter);
    assert_eq!(c.misses(), 0);
    assert_eq!(c.since_update_ticks(20), 8);
    assert_eq!(c.state().class, ShipClass::Fighter);
}

#[test]
fn two_far_apart_detections_make_two_contacts() {
    let mut store = Store::new();
    assert_eq!(store.recv_contact(&detection(ShipClass::Fighter, vec![]), 0), Association::Created(0));
    // The second lies 400 away from the first track, whose radius is 150.
    let g = vec![Gauge { distance: 400, radius: 150 }];
    assert_eq!(store.recv_contact(&detection(ShipClass::Fighter, g), 0), Association::Created(1));
    assert_eq!(store.len(), 2);
    assert_eq!(store.at(0).unwrap().state().corrections, 0);
}

#[test]
fn detection_within_radius_updates_only_that_contact() {
    let mut store = store_with(&[ShipClass::Fighter, ShipClass::Fighter, ShipClass::Fighter], 0);
    let g = vec![
        Gauge { distance: 900, radius: 100 },
        Gauge { distance: 30, radius: 100 },
        Gauge { distance: 500, radius: 100 },
    ];
    assert_eq!(store.recv_contact(&detection(ShipClass::Fighter, g), 5), Association::Matched(1));
    assert_eq!(store.len(), 3);
    assert_eq!(store.next_id(), 3);
    assert_eq!(store.at(1).unwrap().state().corrections, 1);
    assert_eq!(store.at(1).unwrap().state().last_elapsed, 5);
    assert_eq!(store.at(1).unwrap().since_update_ticks(5), 0);
    assert_eq!(store.at(0).unwrap().state().corrections, 0);
    assert_eq!(store.at(2).unwrap().state().corrections, 0);
    assert_eq!(store.at(0).unwrap().since_update_ticks(5), 5);
}

#[test]
fn match_requires_same_class() {
    let mut store = store_with(&[ShipClass::Missile], 0);
    let g = vec![Gauge { distance: 1, radius: 100 }];
    assert_eq!(store.recv_contact(&detection(ShipClass::Fighter, g), 0), Association::Created(1));
}

#[test]
fn nearest_contact_outside_its_radius_starts_new_track() {
    let mut store = store_with(&[ShipClass::Fighter, ShipClass::Fighter], 0);
    // Contact 0 is nearer but too far for its radius; contact 1 would have
    // taken it, but only the nearest is considered.
    let g = vec![Gauge { distance: 10, radius: 5 }, Gauge { distance: 20, radius: 500 }];
    assert_eq!(store.recv_contact(&detection(ShipClass::Fighter, g), 0), Association::Created(2));
}

#[test]
fn equally_near_contacts_prefer_the_earliest() {
    let mut store = store_with(&[ShipClass::Fighter, ShipClass::Fighter], 0);
    let g = vec![Gauge { distance: 20, radius: 50 }, Gauge { distance: 20, radius: 50 }];
    assert_eq!(store.recv_contact(&detection(ShipClass::Fighter, g), 0), Association::Matched(0));
}

#[test]
fn distance_equal_to_radius_is_not_a_match() {
    let mut store = store_with(&[ShipClass::Fighter], 0);
    let g = vec![Gauge { distance: 50, radius: 50 }];
    assert_eq!(store.recv_contact(&detection(ShipClass::Fighter, g), 0), Association::Created(1));
}

#[test]
fn refused_measurement_counts_as_miss() {
    let mut store = store_with(&[ShipClass::Fighter], 0);
    let d = Detection { class: ShipClass::Fighter, gauges: vec![], measurement: Reading { usable: false } };
    assert_eq!(store.update(0, &d.measurement, 9), Some(false));
    let c = store.at(0).unwrap();
    assert_eq!(c.misses(), 1);
    assert_eq!(c.since_update_ticks(9), 9);
    assert_eq!(c.state().corrections, 0);
}

#[test]
fn update_resets_misses_and_age() {
    let mut store = store_with(&[ShipClass::Fighter], 0);
    assert_eq!(store.record_miss(0), Some(1));
    assert_eq!(store.update(0, &Reading { usable: true }, 30), Some(true));
    let c = store.at(0).unwrap();
    assert_eq!(c.misses(), 0);
    assert_eq!(c.since_update_ticks(30), 0);
    assert_eq!(c.state().last_elapsed, 30);
}

#[test]
fn update_and_miss_of_unknown_id() {
    let mut store = store_with(&[ShipClass::Fighter], 0);
    assert_eq!(store.update(7, &Reading { usable: true }, 1), None);
    assert_eq!(store.record_miss(7), None);
    assert!(!store.record_prediction(7, 3, (0, 0)));
    assert_eq!(store.at(0).unwrap().misses(), 0);
}

#[test]
fn two_misses_evict_on_next_tick() {
    let mut store = store_with(&[ShipClass::Fighter, ShipClass::Cruiser], 0);
    assert_eq!(store.record_miss(0), Some(1));
    assert_eq!(store.record_miss(0), Some(2));
    assert!(store.at(0).is_some());
    store.tick(0);
    assert!(store.at(0).is_none());
    assert!(store.at(1).is_some());
    assert_eq!(store.len(), 1);
}

#[test]
fn one_miss_survives_tick() {
    let mut store = store_with(&[ShipClass::Fighter], 0);
    assert_eq!(store.record_miss(0), Some(1));
    store.tick(0);
    assert_eq!(store.len(), 1);
    assert_eq!(store.at(0).unwrap().misses(), 1);
}

#[test]
fn miss_then_update_then_miss_is_not_evicted() {
    let mut store = store_with(&[ShipClass::Fighter], 0);
    store.record_miss(0);
    store.update(0, &Reading { usable: true }, 1);
    store.record_miss(0);
    store.tick(0);
    assert_eq!(store.len(), 1);
}

#[test]
fn tick_advances_every_estimate() {
    let mut store = store_with(&[ShipClass::Fighter, ShipClass::Frigate], 0);
    store.tick(0);
    store.tick(0);
    assert_eq!(store.at(0).unwrap().state().predicts, 2);
    assert_eq!(store.at(1).unwrap().state().predicts, 2);
}

#[test]
fn ids_are_never_reused() {
    let mut store = store_with(&[ShipClass::Fighter], 0);
    store.record_miss(0);
    store.record_miss(0);
    store.tick(0);
    assert_eq!(store.len(), 0);
    assert_eq!(store.recv_contact(&detection(ShipClass::Fighter, vec![]), 0), Association::Created(1));
}

#[test]
fn contact_to_update_picks_most_overdue() {
    let mut store = store_with(&[ShipClass::Fighter], 0);
    store.recv_contact(&detection(ShipClass::Fighter, far(1)), 3);
    store.recv_contact(&detection(ShipClass::Fighter, far(2)), 1);
    // Ages at tick 20: 20, 17, 19.
    assert_eq!(store.contact_to_update(20).unwrap().id(), 0);
    store.update(0, &Reading { usable: true }, 20);
    assert_eq!(store.contact_to_update(20).unwrap().id(), 2);
}

#[test]
fn contact_to_update_threshold() {
    let store = store_with(&[ShipClass::Fighter], 10);
    assert_eq!(UPDATE_AGE, 7);
    assert!(store.contact_to_update(10 + 7).is_none());
    assert_eq!(store.contact_to_update(10 + 8).unwrap().id(), 0);
}

#[test]
fn contact_to_update_ties_prefer_earliest() {
    let store = store_with(&[ShipClass::Fighter, ShipClass::Fighter], 0);
    assert_eq!(store.contact_to_update(100).unwrap().id(), 0);
}

#[test]
fn predictions_are_bounded() {
    let mut store = store_with(&[ShipClass::Fighter], 0);
    for i in 0..7 {
        assert!(store.record_prediction(0, 100 + i, (i as i32, 0)));
    }
    let preds = store.at(0).unwrap().predictions();
    assert_eq!(preds.len(), PREDICTION_CAPACITY);
    assert_eq!(preds[0], (100, (0, 0)));
    assert_eq!(preds[4], (104, (4, 0)));
}

#[test]
fn tick_drops_expired_predictions() {
    let mut store = store_with(&[ShipClass::Fighter], 0);
    store.record_prediction(0, 5, (1, 1));
    store.record_prediction(0, 9, (2, 2));
    store.record_prediction(0, 7, (3, 3));
    store.tick(7);
    let preds = store.at(0).unwrap().predictions();
    assert_eq!(preds, &vec![(9, (2, 2)), (7, (3, 3))]);
}

#[test]
fn miss_clears_predictions() {
    let mut store = store_with(&[ShipClass::Fighter], 0);
    store.record_prediction(0, 50, (1, 1));
    store.record_miss(0);
    assert!(store.at(0).unwrap().predictions().is_empty());
}

#[test]
fn contact_alone() {
    let mut c: Contact<Counter, u8> = Contact::new(
        ShipClass::Torpedo,
        4,
        Counter { class: ShipClass::Torpedo, predicts: 0, corrections: 0, last_elapsed: 0 },
        10,
    );
    assert_eq!(c.since_update_ticks(5), 0);
    assert_eq!(c.since_update_ticks(15), 5);
    c.record_prediction(12, 1);
    c.tick(20);
    assert!(c.predictions().is_empty());
    assert_eq!(c.state().predicts, 1);
    assert_eq!(c.add_miss(), 1);
    assert!(c.update(&Reading { usable: true }, 16));
    assert_eq!(c.state().last_elapsed, 6);
    assert_eq!(c.misses(), 0);
}

#[test]
fn as_slice_in_creation_order() {
    let store = store_with(&[ShipClass::Fighter, ShipClass::Asteroid, ShipClass::Target], 0);
    let ids: Vec<u32> = store.as_slice().iter().map(|c| c.id()).collect();
    assert_eq!(ids, vec![0, 1, 2]);
}
