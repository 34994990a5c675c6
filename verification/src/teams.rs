//! Static reference data: the closed roster of drivers and the constructor
//! teams they drive for.

use vstd::prelude::*;

verus! {

/// List of all current drivers, can possibly change over time
#[derive(Clone, Copy, Debug, PartialEq, Eq, Structural, Hash)]
pub enum Driver {
    VER,
    PER,
    LEC,
    SAI,
    HAM,
    RUS,
    ALO,
    OCO,
    NOR,
    RIC,
    BOT,
    ZHO,
    STR,
    VET,
    MSC,
    MAG,
    GAS,
    TSU,
    LAT,
    ALB,
}

/// Each type implementing Team, can be considered a Constructors Team
/// # Example
/// Red Bull, Mercedes, ...
pub trait Team {
    fn drivers() -> (Driver, Driver);
}

pub struct RedBull {}

impl Team for RedBull {
    fn drivers() -> (r: (Driver, Driver))
        ensures
            r == (Driver::VER, Driver::PER),
    {
        (Driver::VER, Driver::PER)
    }
}

pub struct Mercedes {}

impl Team for Mercedes {
    fn drivers() -> (r: (Driver, Driver))
        ensures
            r == (Driver::HAM, Driver::RUS),
    {
        (Driver::HAM, Driver::RUS)
    }
}

pub struct Ferrari {}

impl Team for Ferrari {
    fn drivers() -> (r: (Driver, Driver))
        ensures
            r == (Driver::SAI, Driver::LEC),
    {
        (Driver::SAI, Driver::LEC)
    }
}

pub struct Alpine {}

impl Team for Alpine {
    fn drivers() -> (r: (Driver, Driver))
        ensures
            r == (Driver::ALO, Driver::OCO),
    {
        (Driver::ALO, Driver::OCO)
    }
}

pub struct McLaren {}

impl Team for McLaren {
    fn drivers() -> (r: (Driver, Driver))
        ensures
            r == (Driver::NOR, Driver::RIC),
    {
        (Driver::NOR, Driver::RIC)
    }
}

pub struct AlfaRomeo {}

impl Team for AlfaRomeo {
    fn drivers() -> (r: (Driver, Driver))
        ensures
            r == (Driver::BOT, Driver::ZHO),
    {
        (Driver::BOT, Driver::ZHO)
    }
}

pub struct AstonMartin {}

impl Team for AstonMartin {
    fn drivers() -> (r: (Driver, Driver))
        ensures
            r == (Driver::STR, Driver::VET),
    {
        (Driver::STR, Driver::VET)
    }
}

pub struct Haas {}

impl Team for Haas {
    fn drivers() -> (r: (Driver, Driver))
        ensures
            r == (Driver::MSC, Driver::MAG),
    {
        (Driver::MSC, Driver::MAG)
    }
}

pub struct AlphaTauri {}

impl Team for AlphaTauri {
    fn drivers() -> (r: (Driver, Driver))
        ensures
            r == (Driver::GAS, Driver::TSU),
    {
        (Driver::GAS, Driver::TSU)
    }
}

pub struct Williams {}

impl Team for Williams {
    fn drivers() -> (r: (Driver, Driver))
        ensures
            r == (Driver::LAT, Driver::ALB),
    {
        (Driver::LAT, Driver::ALB)
    }
}

/// Every constructor team of the season with its driver pairing, keyed by
/// the team's display name.
pub fn full_roster() -> (r: Vec<(String, (Driver, Driver))>)
    ensures
        r@.len() == 10,
        r@[0].0@ == "Red Bull"@ && r@[0].1 == (Driver::VER, Driver::PER),
        r@[1].0@ == "Mercedes"@ && r@[1].1 == (Driver::HAM, Driver::RUS),
        r@[2].0@ == "Ferrari"@ && r@[2].1 == (Driver::SAI, Driver::LEC),
        r@[3].0@ == "Alpine"@ && r@[3].1 == (Driver::ALO, Driver::OCO),
        r@[4].0@ == "McLaren"@ && r@[4].1 == (Driver::NOR, Driver::RIC),
        r@[5].0@ == "Alfa Romeo"@ && r@[5].1 == (Driver::BOT, Driver::ZHO),
        r@[6].0@ == "Aston Martin"@ && r@[6].1 == (Driver::STR, Driver::VET),
        r@[7].0@ == "Haas"@ && r@[7].1 == (Driver::MSC, Driver::MAG),
        r@[8].0@ == "Alpha Tauri"@ && r@[8].1 == (Driver::GAS, Driver::TSU),
        r@[9].0@ == "Williams"@ && r@[9].1 == (Driver::LAT, Driver::ALB),
{
    let mut r: Vec<(String, (Driver, Driver))> = Vec::new();
    r.push((String::from_str("Red Bull"), RedBull::drivers()));
    r.push((String::from_str("Mercedes"), Mercedes::drivers()));
    r.push((String::from_str("Ferrari"), Ferrari::drivers()));
    r.push((String::from_str("Alpine"), Alpine::drivers()));
    r.push((String::from_str("McLaren"), McLaren::drivers()));
    r.push((String::from_str("Alfa Romeo"), AlfaRomeo::drivers()));
    r.push((String::from_str("Aston Martin"), AstonMartin::drivers()));
    r.push((String::from_str("Haas"), Haas::drivers()));
    r.push((String::from_str("Alpha Tauri"), AlphaTauri::drivers()));
    r.push((String::from_str("Williams"), Williams::drivers()));
    r
}

} // verus!
