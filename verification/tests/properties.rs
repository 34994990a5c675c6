use formula_one_betting::bets::{Bet, BettingTable, Outcome, PlayerName, Position};
use formula_one_betting::teams::Driver;

fn score_of(scores: &[(String, u64)], player: &str) -> u64 {
    scores.iter().find(|entry| entry.0 == player).expect("player has a score entry").1
}

#[test]
fn fastest_lap_is_singular() {
    let mut betting_table = BettingTable::new();
    let player = PlayerName::from("demi");
    assert!(betting_table.place(Bet::FastestLap(Driver::LEC), &player).is_ok());
    // any further fastest-lap wager is rejected, even for another driver
    assert!(betting_table.place(Bet::FastestLap(Driver::HAM), &player).is_err());
    assert!(betting_table.place(Bet::FastestLap(Driver::LEC), &player).is_err());
}

#[test]
fn driver_of_the_day_is_singular() {
    let mut betting_table = BettingTable::new();
    let player = PlayerName::from("demi");
    assert!(betting_table.place(Bet::DriverOfTheDay(Driver::LEC), &player).is_ok());
    assert!(betting_table.place(Bet::DriverOfTheDay(Driver::HAM), &player).is_err());
    assert!(betting_table.place(Bet::DriverOfTheDay(Driver::LEC), &player).is_err());
}

#[test]
fn results_are_idempotent() {
    let mut betting_table = BettingTable::new();
    let player = PlayerName::from("demi");
    assert!(betting_table.place(Bet::WillHaveSafetyCar(true), &player).is_ok());
    betting_table.register_outcome(Outcome { outcome: Bet::WillHaveSafetyCar(true), reward: 500 });

    let first = betting_table.results();
    let second = betting_table.results();
    assert_eq!(first, second);
}

#[test]
fn rewards_accumulate_across_outcomes() {
    let mut betting_table = BettingTable::new();
    let player = PlayerName::from("demi");
    assert!(betting_table.place(Bet::DoesNotFinish(Driver::ALB), &player).is_ok());
    assert!(betting_table.place(Bet::WillHaveSafetyCar(true), &player).is_ok());

    betting_table.register_outcome(Outcome { outcome: Bet::DoesNotFinish(Driver::ALB), reward: 300 });
    betting_table.register_outcome(Outcome { outcome: Bet::WillHaveSafetyCar(true), reward: 500 });

    let scores = betting_table.results();
    assert_eq!(score_of(&scores, &player), 800);
}

#[test]
fn rejected_wager_leaves_stored_wagers_unchanged() {
    let mut betting_table = BettingTable::new();
    let player = PlayerName::from("demi");
    assert!(betting_table.place(Bet::DoesNotFinish(Driver::ALB), &player).is_ok());
    // rejected: same driver named twice
    assert!(betting_table.place(Bet::DoesNotFinish(Driver::ALB), &player).is_err());
    // the rejection left no partial entry: a fresh driver is still accepted,
    // and the repeated wager scores once, not twice
    assert!(betting_table.place(Bet::DoesNotFinish(Driver::PER), &player).is_ok());
    betting_table.register_outcome(Outcome { outcome: Bet::DoesNotFinish(Driver::ALB), reward: 100 });
    let scores = betting_table.results();
    assert_eq!(score_of(&scores, &player), 100);
}

#[test]
fn player_without_matching_outcome_scores_zero() {
    let mut betting_table = BettingTable::new();
    let player = PlayerName::from("demi");
    assert!(betting_table.place(Bet::WillHaveSafetyCar(false), &player).is_ok());
    betting_table.register_outcome(Outcome { outcome: Bet::WillHaveSafetyCar(true), reward: 500 });

    let scores = betting_table.results();
    assert_eq!(score_of(&scores, &player), 0);
}

#[test]
fn outcome_nobody_wagered_on_rewards_nobody() {
    let mut betting_table = BettingTable::new();
    let player = PlayerName::from("demi");
    assert!(betting_table.place(Bet::FastestLap(Driver::LEC), &player).is_ok());
    betting_table.register_outcome(Outcome {
        outcome: Bet::DoesNotFinish(Driver::ALB),
        reward: 9999,
    });

    let scores = betting_table.results();
    assert_eq!(score_of(&scores, &player), 0);
}

#[test]
fn empty_table_has_empty_results() {
    let betting_table = BettingTable::new();
    let scores = betting_table.results();
    assert!(scores.is_empty());
}

#[test]
fn distinct_players_do_not_clash() {
    let mut betting_table = BettingTable::new();
    let demi = PlayerName::from("demi");
    let michiel = PlayerName::from("michiel");
    // the same wager is admissible for each player separately
    assert!(betting_table.place(Bet::FastestLap(Driver::LEC), &demi).is_ok());
    assert!(betting_table.place(Bet::FastestLap(Driver::LEC), &michiel).is_ok());
}

#[test]
fn finish_position_frees_other_driver_and_position() {
    let mut betting_table = BettingTable::new();
    let player = PlayerName::from("demi");
    let first = Bet::FinishPosition { driver: Driver::VER, position: Position::new(1) };
    assert!(betting_table.place(first, &player).is_ok());
    // both the driver and the position of an accepted pair are used up
    let same_driver = Bet::FinishPosition { driver: Driver::VER, position: Position::new(2) };
    assert!(betting_table.place(same_driver, &player).is_err());
    let same_position = Bet::FinishPosition { driver: Driver::HAM, position: Position::new(1) };
    assert!(betting_table.place(same_position, &player).is_err());
    // a fresh driver at a fresh position is admissible
    let fresh = Bet::FinishPosition { driver: Driver::HAM, position: Position::new(2) };
    assert!(betting_table.place(fresh, &player).is_ok());
}
