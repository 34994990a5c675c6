use formula_one_betting::bets::Position;
use formula_one_betting::player::Player;
use formula_one_betting::teams::{full_roster, Driver, Mercedes, RedBull, Team, Williams};

#[test]
fn positions_compare_by_value() {
    // the whole grid, both ends included
    let first = Position::new(1);
    let last = Position::new(20);
    assert_ne!(first, last);
    assert_eq!(first, Position::new(1));
    assert_eq!(last, Position::new(20));
}

#[test]
fn full_roster_lists_every_team() {
    let roster = full_roster();
    assert_eq!(roster.len(), 10);
    assert_eq!(roster[0].0, "Red Bull");
    assert_eq!(roster[0].1, (Driver::VER, Driver::PER));
    assert_eq!(roster[9].0, "Williams");
    assert_eq!(roster[9].1, (Driver::LAT, Driver::ALB));
}

#[test]
fn teams_pair_their_drivers() {
    assert_eq!(RedBull::drivers(), (Driver::VER, Driver::PER));
    assert_eq!(Mercedes::drivers(), (Driver::HAM, Driver::RUS));
    assert_eq!(Williams::drivers(), (Driver::LAT, Driver::ALB));
}

#[test]
fn player_multiplier_defaults_to_one() {
    let plain = Player::create(String::from("demi"), None);
    assert_eq!(plain.name, "demi");
    assert_eq!(plain.multiplier, 1);

    let boosted = Player::create(String::from("michiel"), Some(3));
    assert_eq!(boosted.name, "michiel");
    assert_eq!(boosted.multiplier, 3);
}
