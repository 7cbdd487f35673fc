use vstd::prelude::*;

verus! {

/// The kinds of object that the sensor can report.
#[derive(Clone, Copy, Debug, PartialEq, Eq, Structural)]
pub enum ShipClass {
    Fighter,
    Frigate,
    Cruiser,
    Asteroid,
    Target,
    Missile,
    Torpedo,
    Unknown,
}

/// Assumed size in length units of an object of the given class.
pub open spec fn spec_ship_dim(c: ShipClass) -> nat {
    match c {
        ShipClass::Fighter => 20,
        ShipClass::Frigate => 240,
        ShipClass::Cruiser => 480,
        ShipClass::Asteroid => 100,
        ShipClass::Torpedo => 16,
        ShipClass::Target => 40,
        ShipClass::Missile => 3,
        ShipClass::Unknown => 50,
    }
}

/// Assumed size in length units of an object of the given class; used to
/// bound the width of a beam aimed at such an object.
pub fn ship_dim(c: ShipClass) -> (r: u32)
    ensures
        r == spec_ship_dim(c),
{
    match c {
        ShipClass::Fighter => 20,
        ShipClass::Frigate => 240,
        ShipClass::Cruiser => 480,
        ShipClass::Asteroid => 100,
        ShipClass::Torpedo => 16,
        ShipClass::Target => 40,
        ShipClass::Missile => 3,
        ShipClass::Unknown => 50,
    }
}

} // verus!
