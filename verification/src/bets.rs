//! The betting ledger. Players place wagers ([`Bet`]) on a [`BettingTable`];
//! admission rules keep every player's wagers free of clashes, and once
//! outcomes are registered the table computes each player's reward.

use vstd::prelude::*;
use crate::errors::ClashesWithExistingBet;
use crate::teams::Driver;

verus! {

pub type PlayerName = String;

/// Position on the race grid, always from 1 up to 20
#[derive(Clone, Copy, Debug, Eq, PartialEq, Structural, Hash)]
pub struct Position(u8);

impl View for Position {
    type V = int;

    closed spec fn view(&self) -> int {
        self.0 as int
    }
}

impl Position {
    /// Builds a grid position. An integer outside [1, 20] is malformed
    /// input and is ruled out before construction: every position that can
    /// be constructed is valid, and a position never changes once built.
    pub fn new(position: u8) -> (r: Self)
        requires
            1 <= position <= 20,
        ensures
            r@ == position,
            r.valid(),
    {
        Position(position)
    }

    /// A position lies in [1, 20].
    pub open spec fn valid(self) -> bool {
        1 <= self@ <= 20
    }
}

/// Two grid positions are the same value exactly when they stand for the
/// same number: no two numerically distinct positions compare equal.
pub proof fn lemma_position_eq_by_value(a: Position, b: Position)
    ensures
        (a == b) <==> (a@ == b@),
{
}

/// Possible things a player can bet on
#[derive(Clone, Copy, Debug, Eq, PartialEq, Structural, Hash)]
pub enum Bet {
    /// At which position does a driver finish the race
    FinishPosition { driver: Driver, position: Position },
    /// Which driver does not finish the race
    DoesNotFinish(Driver),
    /// Which driver has the fastest lap at end of race
    FastestLap(Driver),
    /// Which driver gets voted as driver of the day
    DriverOfTheDay(Driver),
    /// Will there be a Safety Car?
    WillHaveSafetyCar(bool),
}

/// Does a wager a player already holds bar a new one?
///
/// - A finish-position wager bars any finish-position wager that names the
///   same driver or the same position.
/// - A did-not-finish wager bars only its exact repetition: each driver may
///   receive one such wager.
/// - Fastest lap, driver of the day and the safety-car question are singular
///   categories: one wager in the category bars every further one, whatever
///   its payload.
pub open spec fn conflicts(existing: Bet, new: Bet) -> bool {
    match new {
        Bet::FinishPosition { driver, position } => existing matches Bet::FinishPosition {
            driver: d,
            position: p,
        } && (d == driver || p == position),
        Bet::DoesNotFinish(d) => existing == Bet::DoesNotFinish(d),
        Bet::FastestLap(_) => existing is FastestLap,
        Bet::DriverOfTheDay(_) => existing is DriverOfTheDay,
        Bet::WillHaveSafetyCar(_) => existing is WillHaveSafetyCar,
    }
}

/// A new wager is admissible against a player's current wagers when none of
/// them bars it.
pub open spec fn admissible(existing: Seq<Bet>, new: Bet) -> bool {
    forall|i: int| 0 <= i < existing.len() ==> !conflicts(existing[i], new)
}

/// A player's wager collection is consistent when every wager in it was
/// admissible against the ones placed before it.
pub open spec fn consistent(bets: Seq<Bet>) -> bool {
    forall|k: int| 0 <= k < bets.len() ==> admissible(#[trigger] bets.take(k), bets[k])
}

fn conflicts_with(existing: &Bet, new: &Bet) -> (r: bool)
    ensures
        r == conflicts(*existing, *new),
{
    match *new {
        Bet::FinishPosition { driver, position } => match *existing {
            Bet::FinishPosition { driver: d, position: p } => d == driver || p == position,
            _ => false,
        },
        Bet::DoesNotFinish(d) => match *existing {
            Bet::DoesNotFinish(e) => e == d,
            _ => false,
        },
        Bet::FastestLap(_) => matches!(*existing, Bet::FastestLap(_)),
        Bet::DriverOfTheDay(_) => matches!(*existing, Bet::DriverOfTheDay(_)),
        Bet::WillHaveSafetyCar(_) => matches!(*existing, Bet::WillHaveSafetyCar(_)),
    }
}

fn admissible_against(existing: &Vec<Bet>, new: &Bet) -> (r: bool)
    ensures
        r == admissible(existing@, *new),
{
    let mut i: usize = 0;
    while i < existing.len()
        invariant
            0 <= i <= existing@.len(),
            forall|j: int| 0 <= j < i ==> !conflicts(existing@[j], *new),
        decreases existing@.len() - i,
    {
        if conflicts_with(&existing[i], new) {
            return false;
        }
        i += 1;
    }
    true
}

/// The current state or the eventual outcome of a certain bet
/// Will be used to track live results on all matching bets
/// and to calculate final winnings after the race
pub struct Outcome {
    pub outcome: Bet,
    pub reward: u64,
}

/// The sum of all rewards in an outcome log.
pub open spec fn total_reward(outcomes: Seq<Outcome>) -> int
    decreases outcomes.len(),
{
    if outcomes.len() == 0 {
        0
    } else {
        total_reward(outcomes.drop_last()) + outcomes.last().reward
    }
}

/// A player's reward: every registered outcome whose wager the player also
/// placed contributes its reward, and the contributions are summed.
pub open spec fn player_score(bets: Seq<Bet>, outcomes: Seq<Outcome>) -> int
    decreases outcomes.len(),
{
    if outcomes.len() == 0 {
        0
    } else {
        player_score(bets, outcomes.drop_last()) + if bets.contains(outcomes.last().outcome) {
            outcomes.last().reward as int
        } else {
            0
        }
    }
}

/// The wagers stored for `name`: those of the first entry carrying that
/// name, or none when no entry does.
spec fn bets_in(entries: Seq<(String, Vec<Bet>)>, name: Seq<char>) -> Seq<Bet>
    decreases entries.len(),
{
    if entries.len() == 0 {
        Seq::<Bet>::empty()
    } else if entries[0].0@ == name {
        entries[0].1@
    } else {
        bets_in(entries.skip(1), name)
    }
}

proof fn lemma_bets_in_first(entries: Seq<(String, Vec<Bet>)>, i: int, name: Seq<char>)
    requires
        0 <= i < entries.len(),
        entries[i].0@ == name,
        forall|j: int| 0 <= j < i ==> entries[j].0@ != name,
    ensures
        bets_in(entries, name) == entries[i].1@,
    decreases i,
{
    if i > 0 {
        lemma_bets_in_first(entries.skip(1), i - 1, name);
    }
}

proof fn lemma_bets_in_absent(entries: Seq<(String, Vec<Bet>)>, name: Seq<char>)
    requires
        forall|j: int| 0 <= j < entries.len() ==> entries[j].0@ != name,
    ensures
        bets_in(entries, name) == Seq::<Bet>::empty(),
    decreases entries.len(),
{
    if entries.len() > 0 {
        lemma_bets_in_absent(entries.skip(1), name);
    }
}

/// Replacing an entry with one of the same name leaves every other name's
/// stored wagers as they were.
proof fn lemma_bets_in_update_other(
    entries: Seq<(String, Vec<Bet>)>,
    i: int,
    e: (String, Vec<Bet>),
    name: Seq<char>,
)
    requires
        0 <= i < entries.len(),
        entries[i].0@ == e.0@,
        name != e.0@,
    ensures
        bets_in(entries.update(i, e), name) == bets_in(entries, name),
    decreases entries.len(),
{
    let updated = entries.update(i, e);
    if i == 0 {
        assert(updated.skip(1) =~= entries.skip(1));
    } else {
        if entries[0].0@ != name {
            assert(updated.skip(1) =~= entries.skip(1).update(i - 1, e));
            lemma_bets_in_update_other(entries.skip(1), i - 1, e, name);
        }
    }
}

/// Appending an entry for one name leaves every other name's stored wagers
/// as they were.
proof fn lemma_bets_in_push_other(
    entries: Seq<(String, Vec<Bet>)>,
    e: (String, Vec<Bet>),
    name: Seq<char>,
)
    requires
        name != e.0@,
    ensures
        bets_in(entries.push(e), name) == bets_in(entries, name),
    decreases entries.len(),
{
    if entries.len() == 0 {
        assert(entries.push(e)[0] == e);
        assert(entries.push(e).skip(1) =~= Seq::<(String, Vec<Bet>)>::empty());
        assert(bets_in(entries.push(e), name) == bets_in(
            Seq::<(String, Vec<Bet>)>::empty(),
            name,
        ));
    } else {
        assert(entries.push(e)[0] == entries[0]);
        if entries[0].0@ != name {
            assert(entries.push(e).skip(1) =~= entries.skip(1).push(e));
            lemma_bets_in_push_other(entries.skip(1), e, name);
        }
    }
}

/// A wager admissible against a consistent collection extends it to a
/// consistent collection: the ledger never stores an inconsistent state.
pub proof fn lemma_consistent_push(bets: Seq<Bet>, b: Bet)
    requires
        consistent(bets),
        admissible(bets, b),
    ensures
        consistent(bets.push(b)),
{
    let extended = bets.push(b);
    assert forall|k: int| 0 <= k < extended.len() implies admissible(
        #[trigger] extended.take(k),
        extended[k],
    ) by {
        if k < bets.len() {
            assert(extended.take(k) =~= bets.take(k));
            assert(admissible(bets.take(k), bets[k]));
        } else {
            assert(extended.take(k) =~= bets);
        }
    }
}

pub struct BettingTable {
    /// The placed bets, one entry per player name
    placed_bets: Vec<(PlayerName, Vec<Bet>)>,
    /// The eventual outcomes after/during a race
    outcomes: Vec<Outcome>,
}

impl BettingTable {
    /// The names of the players holding at least one wager, in the order
    /// their first wager was placed.
    pub closed spec fn player_names(self) -> Seq<Seq<char>> {
        self.placed_bets@.map_values(|e: (String, Vec<Bet>)| e.0@)
    }

    /// The wagers stored for a player, in placement order.
    pub closed spec fn bets_of(self, name: Seq<char>) -> Seq<Bet> {
        bets_in(self.placed_bets@, name)
    }

    /// The registered outcomes, in registration order.
    pub closed spec fn outcome_log(self) -> Seq<Outcome> {
        self.outcomes@
    }

    pub open spec fn has_player(self, name: Seq<char>) -> bool {
        self.player_names().contains(name)
    }

    /// The table's invariant: one entry per player name, and every stored
    /// collection of wagers admitted under the admission rules.
    pub closed spec fn wf(self) -> bool {
        &&& forall|i: int, j: int|
            0 <= i < j < self.placed_bets@.len() ==> self.placed_bets@[i].0@
                != self.placed_bets@[j].0@
        &&& forall|i: int|
            0 <= i < self.placed_bets@.len() ==> consistent(#[trigger] self.placed_bets@[i].1@)
    }

    /// Create a new betting table
    pub fn new() -> (r: Self)
        ensures
            r.wf(),
            r.player_names() == Seq::<Seq<char>>::empty(),
            r.outcome_log() == Seq::<Outcome>::empty(),
            forall|name: Seq<char>| r.bets_of(name) == Seq::<Bet>::empty(),
    {
        let r = BettingTable { placed_bets: Vec::new(), outcomes: Vec::new() };
        proof {
            assert(r.player_names() =~= Seq::<Seq<char>>::empty());
        }
        r
    }

    /// Registers something that happened in the race
    pub fn register_outcome(&mut self, outcome: Outcome)
        ensures
            final(self).outcome_log() == old(self).outcome_log().push(outcome),
            final(self).player_names() == old(self).player_names(),
            forall|name: Seq<char>| final(self).bets_of(name) == old(self).bets_of(name),
            old(self).wf() ==> final(self).wf(),
    {
        self.outcomes.push(outcome);
    }

    fn find_player(&self, player: &PlayerName) -> (r: Option<usize>)
        ensures
            match r {
                Option::Some(i) => 0 <= i < self.placed_bets@.len() && self.placed_bets@[i as int].0@
                    == player@ && forall|j: int|
                    0 <= j < i ==> self.placed_bets@[j].0@ != player@,
                Option::None => forall|j: int|
                    0 <= j < self.placed_bets@.len() ==> self.placed_bets@[j].0@ != player@,
            },
    {
        let mut i: usize = 0;
        while i < self.placed_bets.len()
            invariant
                0 <= i <= self.placed_bets@.len(),
                forall|j: int| 0 <= j < i ==> self.placed_bets@[j].0@ != player@,
            decreases self.placed_bets@.len() - i,
        {
            if self.placed_bets[i].0 == *player {
                return Option::Some(i);
            }
            i += 1;
        }
        Option::None
    }

    fn get_bets_for(&self, player: &PlayerName) -> (r: Vec<Bet>)
        ensures
            r@ == self.bets_of(player@),
    {
        match self.find_player(player) {
            Option::Some(i) => {
                proof {
                    lemma_bets_in_first(self.placed_bets@, i as int, player@);
                }
                let stored = &self.placed_bets[i].1;
                let mut r: Vec<Bet> = Vec::new();
                let mut k: usize = 0;
                while k < stored.len()
                    invariant
                        0 <= k <= stored@.len(),
                        r@ == stored@.take(k as int),
                    decreases stored@.len() - k,
                {
                    r.push(stored[k]);
                    proof {
                        assert(stored@.take(k + 1) =~= stored@.take(k as int).push(stored@[k as int]));
                    }
                    k += 1;
                }
                proof {
                    assert(stored@.take(stored@.len() as int) =~= stored@);
                }
                r
            },
            Option::None => {
                proof {
                    lemma_bets_in_absent(self.placed_bets@, player@);
                }
                Vec::new()
            },
        }
    }

    fn is_bet_valid(&self, bet_type: &Bet, player: &PlayerName) -> (r: bool)
        ensures
            r == admissible(self.bets_of(player@), *bet_type),
    {
        let existing_bets = self.get_bets_for(player);
        admissible_against(&existing_bets, bet_type)
    }

    /// Places a bet for a certain player.
    ///
    /// The wager is accepted exactly when it is admissible against the
    /// wagers the player already holds; it is then appended to that player's
    /// collection and handed back unchanged. A clashing wager is returned in
    /// the error and the table is left exactly as it was.
    pub fn place(&mut self, bet: Bet, player: &PlayerName) -> (r: Result<
        Bet,
        ClashesWithExistingBet,
    >)
        requires
            old(self).wf(),
        ensures
            final(self).wf(),
            final(self).outcome_log() == old(self).outcome_log(),
            admissible(old(self).bets_of(player@), bet) ==> {
                &&& r == Ok::<Bet, ClashesWithExistingBet>(bet)
                &&& final(self).bets_of(player@) == old(self).bets_of(player@).push(bet)
                &&& forall|name: Seq<char>|
                    name != player@ ==> final(self).bets_of(name) == old(self).bets_of(name)
                &&& final(self).player_names() == (if old(self).has_player(player@) {
                    old(self).player_names()
                } else {
                    old(self).player_names().push(player@)
                })
            },
            !admissible(old(self).bets_of(player@), bet) ==> {
                &&& r == Err::<Bet, ClashesWithExistingBet>(
                    (ClashesWithExistingBet { existing_bet: bet }),
                )
                &&& *final(self) == *old(self)
            },
    {
        if self.is_bet_valid(&bet, player) {
            match self.find_player(player) {
                Option::Some(i) => {
                    proof {
                        lemma_bets_in_first(self.placed_bets@, i as int, player@);
                    }
                    let ghost old_entries = self.placed_bets@;
                    let mut entry = self.placed_bets.remove(i);
                    entry.1.push(bet);
                    self.placed_bets.insert(i, entry);
                    proof {
                        assert(forall|k: int|
                            0 <= k < old_entries.len() && k != i ==> self.placed_bets@[k]
                                == old_entries[k]);
                        assert(self.placed_bets@[i as int] == entry);
                        self.lemma_place_updates_entry(
                            *old(self),
                            old_entries,
                            i as int,
                            bet,
                            player@,
                        );
                    }
                    Result::Ok(bet)
                },
                Option::None => {
                    proof {
                        lemma_bets_in_absent(self.placed_bets@, player@);
                    }
                    let ghost old_entries = self.placed_bets@;
                    let mut first_bets: Vec<Bet> = Vec::new();
                    first_bets.push(bet);
                    self.placed_bets.push((player.clone(), first_bets));
                    proof {
                        assert(self.placed_bets@.last().0@ == player@);
                        self.lemma_place_appends_entry(*old(self), old_entries, bet, player@);
                    }
                    Result::Ok(bet)
                },
            }
        } else {
            Result::Err(ClashesWithExistingBet { existing_bet: bet })
        }
    }

    /// After pushing a wager onto the entry at `i` (the first and only one
    /// carrying `name`), the table relates to the old one as `place`'s
    /// contract states for an already-known player.
    proof fn lemma_place_updates_entry(
        self,
        prior: Self,
        old_entries: Seq<(String, Vec<Bet>)>,
        i: int,
        bet: Bet,
        name: Seq<char>,
    )
        requires
            prior.wf(),
            prior.placed_bets@ == old_entries,
            0 <= i < old_entries.len(),
            old_entries[i].0@ == name,
            forall|j: int| 0 <= j < i ==> old_entries[j].0@ != name,
            admissible(old_entries[i].1@, bet),
            self.placed_bets@.len() == old_entries.len(),
            forall|k: int|
                0 <= k < old_entries.len() && k != i ==> self.placed_bets@[k] == old_entries[k],
            self.placed_bets@[i].0 == old_entries[i].0,
            self.placed_bets@[i].1@ == old_entries[i].1@.push(bet),
            self.outcomes@ == prior.outcomes@,
        ensures
            self.wf(),
            self.outcome_log() == prior.outcome_log(),
            self.bets_of(name) == prior.bets_of(name).push(bet),
            forall|q: Seq<char>| q != name ==> self.bets_of(q) == prior.bets_of(q),
            self.player_names() == prior.player_names(),
            prior.has_player(name),
    {
        let entries = self.placed_bets@;
        let e = entries[i];
        assert(entries =~= old_entries.update(i, e));
        assert(forall|k: int| 0 <= k < entries.len() ==> entries[k].0@ == old_entries[k].0@);
        // the one changed entry stays consistent, the others are untouched
        assert(consistent(old_entries[i].1@));
        lemma_consistent_push(old_entries[i].1@, bet);
        // the stored wagers of `name`, before and after
        lemma_bets_in_first(old_entries, i, name);
        lemma_bets_in_first(entries, i, name);
        // every other name keeps its wagers
        assert forall|q: Seq<char>| q != name implies self.bets_of(q) == prior.bets_of(q) by {
            lemma_bets_in_update_other(old_entries, i, e, q);
        }
        assert(self.player_names() =~= prior.player_names());
        assert(prior.player_names()[i] == name);
        assert(prior.player_names().contains(name));
    }

    /// After appending a fresh entry for `name` (absent before) holding the
    /// single wager `bet`, the table relates to the old one as `place`'s
    /// contract states for a new player.
    proof fn lemma_place_appends_entry(
        self,
        prior: Self,
        old_entries: Seq<(String, Vec<Bet>)>,
        bet: Bet,
        name: Seq<char>,
    )
        requires
            prior.wf(),
            prior.placed_bets@ == old_entries,
            forall|j: int| 0 <= j < old_entries.len() ==> old_entries[j].0@ != name,
            self.placed_bets@.len() == old_entries.len() + 1,
            forall|k: int| 0 <= k < old_entries.len() ==> self.placed_bets@[k] == old_entries[k],
            self.placed_bets@.last().0@ == name,
            self.placed_bets@.last().1@ == Seq::<Bet>::empty().push(bet),
            self.outcomes@ == prior.outcomes@,
        ensures
            self.wf(),
            self.outcome_log() == prior.outcome_log(),
            self.bets_of(name) == prior.bets_of(name).push(bet),
            forall|q: Seq<char>| q != name ==> self.bets_of(q) == prior.bets_of(q),
            self.player_names() == prior.player_names().push(name),
            !prior.has_player(name),
    {
        let entries = self.placed_bets@;
        let e = entries.last();
        assert(forall|k: int| 0 <= k < old_entries.len() ==> entries[k] == old_entries[k]);
        assert(entries =~= old_entries.push(e));
        // the fresh entry's single wager was admissible against nothing
        assert(e.1@.take(0) =~= Seq::<Bet>::empty());
        assert(consistent(e.1@));
        // the stored wagers of `name`, before and after
        lemma_bets_in_absent(old_entries, name);
        lemma_bets_in_first(entries, old_entries.len() as int, name);
        assert(self.bets_of(name) == Seq::<Bet>::empty().push(bet));
        assert(prior.bets_of(name).push(bet) == Seq::<Bet>::empty().push(bet));
        // every other name keeps its wagers
        assert forall|q: Seq<char>| q != name implies self.bets_of(q) == prior.bets_of(q) by {
            lemma_bets_in_push_other(old_entries, e, q);
        }
        assert(self.player_names() =~= prior.player_names().push(name));
        assert forall|j: int|
            0 <= j < prior.player_names().len() implies prior.player_names()[j] != name by {
            assert(prior.player_names()[j] == old_entries[j].0@);
        }
        assert(!prior.player_names().contains(name));
    }

    /// The score table derived from the current wagers and outcomes: one
    /// entry per player, in the order the players first placed a wager.
    pub open spec fn scores(self) -> Seq<(Seq<char>, int)> {
        Seq::new(
            self.player_names().len(),
            |i: int|
                (
                    self.player_names()[i],
                    player_score(self.bets_of(self.player_names()[i]), self.outcome_log()),
                ),
        )
    }

    /// Get the current results, based on current bets and outcomes.
    ///
    /// Every player holding at least one wager gets one entry; its value is
    /// the sum of the rewards of the registered outcomes whose wager that
    /// player placed. The table is only read: the result is a pure function
    /// of the current wagers and outcomes.
    pub fn results(&self) -> (r: Vec<(PlayerName, u64)>)
        requires
            self.wf(),
            total_reward(self.outcome_log()) <= u64::MAX,
        ensures
            scores_view(r@) == self.scores(),
    {
        let mut r: Vec<(PlayerName, u64)> = Vec::new();
        let mut i: usize = 0;
        while i < self.placed_bets.len()
            invariant
                self.wf(),
                total_reward(self.outcome_log()) <= u64::MAX,
                0 <= i <= self.placed_bets@.len(),
                r@.len() == i,
                forall|k: int|
                    0 <= k < i ==> (#[trigger] r@[k]).0@ == self.player_names()[k] && r@[k].1
                        as int == player_score(
                        self.bets_of(self.player_names()[k]),
                        self.outcome_log(),
                    ),
            decreases self.placed_bets@.len() - i,
        {
            proof {
                lemma_bets_in_first(self.placed_bets@, i as int, self.placed_bets@[i as int].0@);
            }
            let name = self.placed_bets[i].0.clone();
            let score = score_for(&self.placed_bets[i].1, &self.outcomes);
            r.push((name, score));
            i += 1;
        }
        proof {
            assert(scores_view(r@) =~= self.scores());
        }
        r
    }
}

/// The score table a `results` vector stands for, read entry by entry.
pub open spec fn scores_view(r: Seq<(String, u64)>) -> Seq<(Seq<char>, int)> {
    r.map_values(|p: (String, u64)| (p.0@, p.1 as int))
}

/// A player's score never exceeds the sum of all registered rewards, and is
/// never negative.
pub proof fn lemma_score_bounds(bets: Seq<Bet>, outcomes: Seq<Outcome>)
    ensures
        0 <= player_score(bets, outcomes) <= total_reward(outcomes),
    decreases outcomes.len(),
{
    if outcomes.len() > 0 {
        lemma_score_bounds(bets, outcomes.drop_last());
    }
}

/// Registering further outcomes can only grow the total reward.
proof fn lemma_total_reward_take(outcomes: Seq<Outcome>, n: int)
    requires
        0 <= n <= outcomes.len(),
    ensures
        total_reward(outcomes.take(n)) <= total_reward(outcomes),
    decreases outcomes.len() - n,
{
    if n < outcomes.len() {
        lemma_total_reward_take(outcomes, n + 1);
        assert(outcomes.take(n + 1).drop_last() =~= outcomes.take(n));
        assert(total_reward(outcomes.take(n)) <= total_reward(outcomes.take(n + 1)));
    } else {
        assert(outcomes.take(n) =~= outcomes);
    }
}

fn contains_bet(bets: &Vec<Bet>, b: &Bet) -> (r: bool)
    ensures
        r == bets@.contains(*b),
{
    let mut i: usize = 0;
    while i < bets.len()
        invariant
            0 <= i <= bets@.len(),
            forall|j: int| 0 <= j < i ==> bets@[j] != *b,
        decreases bets@.len() - i,
    {
        if bets[i] == *b {
            return true;
        }
        i += 1;
    }
    false
}

/// Fastest lap, driver of the day and the safety-car question are the
/// singular wager categories: a player holds at most one wager of each.
pub open spec fn same_singular_category(a: Bet, b: Bet) -> bool {
    ||| (a is FastestLap && b is FastestLap)
    ||| (a is DriverOfTheDay && b is DriverOfTheDay)
    ||| (a is WillHaveSafetyCar && b is WillHaveSafetyCar)
}

/// One wager in a singular category bars every later wager of that category,
/// whatever its payload.
pub proof fn lemma_singular_category_blocks(s: Seq<Bet>, placed: Bet, attempt: Bet)
    requires
        s.contains(placed),
        same_singular_category(placed, attempt),
    ensures
        !admissible(s, attempt),
{
    let i = choose|i: int| 0 <= i < s.len() && s[i] == placed;
    assert(conflicts(s[i], attempt));
}

/// A did-not-finish wager may be held once per driver: repeating a driver is
/// barred, while a driver not yet named that way is always admissible.
pub proof fn lemma_does_not_finish_per_driver(s: Seq<Bet>, a: Driver, b: Driver)
    ensures
        s.contains(Bet::DoesNotFinish(a)) ==> !admissible(s, Bet::DoesNotFinish(a)),
        !s.contains(Bet::DoesNotFinish(b)) ==> admissible(s, Bet::DoesNotFinish(b)),
{
    if s.contains(Bet::DoesNotFinish(a)) {
        let i = choose|i: int| 0 <= i < s.len() && s[i] == Bet::DoesNotFinish(a);
        assert(conflicts(s[i], Bet::DoesNotFinish(a)));
    }
    if !s.contains(Bet::DoesNotFinish(b)) {
        assert forall|i: int| 0 <= i < s.len() implies !conflicts(
            s[i],
            Bet::DoesNotFinish(b),
        ) by {
            assert(s[i] != Bet::DoesNotFinish(b));
        }
    }
}

/// A placed finish-position pair bars every later finish-position wager
/// naming its driver or its position; one naming a fresh driver and a fresh
/// position is admissible.
pub proof fn lemma_finish_position_exclusive(
    s: Seq<Bet>,
    a: Driver,
    b: Driver,
    p1: Position,
    p2: Position,
)
    requires
        s.contains((Bet::FinishPosition { driver: a, position: p1 })),
    ensures
        !admissible(s, (Bet::FinishPosition { driver: a, position: p2 })),
        !admissible(s, (Bet::FinishPosition { driver: b, position: p1 })),
        (forall|i: int|
            0 <= i < s.len() ==> ((#[trigger] s[i]) matches Bet::FinishPosition {
                driver: d,
                position: p,
            } ==> d != b && p != p2)) ==> admissible(
            s,
            (Bet::FinishPosition { driver: b, position: p2 }),
        ),
{
    let i = choose|i: int|
        0 <= i < s.len() && s[i] == (Bet::FinishPosition { driver: a, position: p1 });
    assert(conflicts(s[i], Bet::FinishPosition { driver: a, position: p2 }));
    assert(conflicts(s[i], Bet::FinishPosition { driver: b, position: p1 }));
}

/// `results` is idempotent: with no placement or outcome registration in
/// between, two result computations stand for the same score table.
pub proof fn lemma_results_idempotent(
    t: BettingTable,
    r1: Seq<(String, u64)>,
    r2: Seq<(String, u64)>,
)
    requires
        scores_view(r1) == t.scores(),
        scores_view(r2) == t.scores(),
    ensures
        scores_view(r1) == scores_view(r2),
{
}

/// Rewards add up: the score against two outcome logs registered one after
/// the other is the sum of the scores against each.
pub proof fn lemma_score_additive(bets: Seq<Bet>, first: Seq<Outcome>, second: Seq<Outcome>)
    ensures
        player_score(bets, first + second) == player_score(bets, first) + player_score(
            bets,
            second,
        ),
    decreases second.len(),
{
    if second.len() == 0 {
        assert(first + second =~= first);
    } else {
        assert((first + second).drop_last() =~= first + second.drop_last());
        lemma_score_additive(bets, first, second.drop_last());
        assert((first + second).last() == second.last());
    }
}

/// A player whose wagers match two registered outcomes collects the sum of
/// both rewards.
pub proof fn lemma_two_outcomes_accumulate(bets: Seq<Bet>, first: Outcome, second: Outcome)
    requires
        bets.contains(first.outcome),
        bets.contains(second.outcome),
    ensures
        player_score(bets, seq![first, second]) == first.reward + second.reward,
{
    let both = seq![first, second];
    assert(both.drop_last() =~= seq![first]);
    assert(both.last() == second);
    assert(seq![first].drop_last() =~= Seq::<Outcome>::empty());
    assert(seq![first].last() == first);
    assert(player_score(bets, Seq::<Outcome>::empty()) == 0);
    assert(player_score(bets, seq![first]) == first.reward);
    assert(player_score(bets, both) == player_score(bets, seq![first]) + second.reward);
}

fn score_for(bets: &Vec<Bet>, outcomes: &Vec<Outcome>) -> (s: u64)
    requires
        total_reward(outcomes@) <= u64::MAX,
    ensures
        s as int == player_score(bets@, outcomes@),
{
    let mut s: u64 = 0;
    let mut j: usize = 0;
    while j < outcomes.len()
        invariant
            total_reward(outcomes@) <= u64::MAX,
            0 <= j <= outcomes@.len(),
            s as int == player_score(bets@, outcomes@.take(j as int)),
        decreases outcomes@.len() - j,
    {
        proof {
            assert(outcomes@.take(j + 1).drop_last() =~= outcomes@.take(j as int));
            assert(outcomes@.take(j + 1).last() == outcomes@[j as int]);
            lemma_score_bounds(bets@, outcomes@.take(j + 1));
            lemma_total_reward_take(outcomes@, j + 1);
        }
        if contains_bet(bets, &outcomes[j].outcome) {
            s = s + outcomes[j].reward;
        }
        j += 1;
    }
    proof {
        assert(outcomes@.take(outcomes@.len() as int) =~= outcomes@);
    }
    s
}

} // verus!
