//! Many rounds at one table, and what their results add up to.

use crate::actions::empty_hand;
use crate::betting_strategy::BetStrategy;
use crate::deck::Card;
use crate::hand::Hand;
use crate::playing_strategy::{count_by, CountStrategy, InsuranceStrategy, PlayStrategy};
use crate::run_hand::{error_of, resolves, round_plays, round_winner, wins_of};
use crate::{
    config_error, ConfigError, EndState, Game, GameError, GameSettings, GameView, Winner, MAX_BET,
};
use num_format::{Locale, ToFormattedString};
use std::sync::Arc;
use vstd::prelude::*;

verus! {

/// Why a run was given up.
#[derive(Debug, Copy, Clone, PartialEq, Eq, Structural)]
pub enum SimulationError {
    /// No game can be made from the settings.
    Config(ConfigError),
    /// A round was given up.
    Round(GameError),
}

impl SimulationError {
    /// Why the run was given up, in words.
    pub open spec fn message(&self) -> Seq<char> {
        match self {
            SimulationError::Config(error) => error.message(),
            SimulationError::Round(error) => error.message(),
        }
    }

    /// Why the run was given up, as text.
    pub fn to_string(&self) -> (text: String)
        ensures
            text@ == self.message(),
    {
        match self {
            SimulationError::Config(error) => error.to_string(),
            SimulationError::Round(error) => error.to_string(),
        }
    }
}

/// What one hand pays the player, in units of stake: a natural against a
/// dealer without one pays three to two, rounded down; a doubled hand pays
/// two to one; any other hand won pays even money; a hand lost costs the
/// stake; a tie pays nothing.
pub open spec fn hand_payoff(result: (Winner, EndState)) -> int {
    let state = result.1;
    match result.0 {
        Winner::Player => if state.p_natural && !state.d_natural {
            (state.hand_bet * 3) / 2
        } else if state.p_doubled {
            state.hand_bet * 2
        } else {
            state.hand_bet as int
        },
        Winner::Dealer => -(state.hand_bet as int),
        Winner::Tie => 0,
        Winner::Nobody => 0,
    }
}

/// What the hands pay the player in all.
pub open spec fn total_payoff(results: Seq<(Winner, EndState)>) -> int
    decreases results.len(),
{
    if results.len() == 0 {
        0
    } else {
        total_payoff(results.drop_last()) + hand_payoff(results.last())
    }
}

/// The results won by `who`, in their order.
pub open spec fn results_of(results: Seq<(Winner, EndState)>, who: Winner) -> Seq<
    (Winner, EndState),
>
    decreases results.len(),
{
    if results.len() == 0 {
        Seq::empty()
    } else if results.last().0 == who {
        results_of(results.drop_last(), who).push(results.last())
    } else {
        results_of(results.drop_last(), who)
    }
}

/// The number of results in which the player went over 21.
pub open spec fn busts_in(results: Seq<(Winner, EndState)>) -> nat
    decreases results.len(),
{
    if results.len() == 0 {
        0
    } else {
        busts_in(results.drop_last()) + if results.last().1.p_bust {
            1nat
        } else {
            0nat
        }
    }
}

/// There are as many results won by a side as the side has wins, and no
/// more than there are results.
pub proof fn law_results_won_are_counted(results: Seq<(Winner, EndState)>, who: Winner)
    ensures
        results_of(results, who).len() == wins_of(results, who),
        wins_of(results, who) <= results.len(),
        busts_in(results) <= results.len(),
    decreases results.len(),
{
    if results.len() > 0 {
        law_results_won_are_counted(results.drop_last(), who);
    }
}

/// The wins of the three sides are wins of different hands.
pub proof fn lemma_wins_are_disjoint(results: Seq<(Winner, EndState)>)
    ensures
        wins_of(results, Winner::Player) + wins_of(results, Winner::Dealer) + wins_of(
            results,
            Winner::Tie,
        ) + wins_of(results, Winner::Nobody) == results.len(),
    decreases results.len(),
{
    if results.len() > 0 {
        lemma_wins_are_disjoint(results.drop_last());
    }
}

/// Whether `post` is the table `pre` after one round at the stake `bet`, with
/// `added` as the results of its hands and `error` as what it was given up
/// for, if it was. A stake over the table limit gives the round up before it
/// is dealt. Else the round is dealt and played; where it is played to the
/// end, its hands are resolved and then taken off the table; where it is
/// given up, the table stays as it stood then, and there are no results.
#[verifier::opaque]
pub open spec fn round_at_table<P: PlayStrategy, D: PlayStrategy>(
    pre: GameView,
    post: GameView,
    bet: u32,
    player: P,
    dealer: D,
    delta: spec_fn(Card) -> i8,
    added: Seq<(Winner, EndState)>,
    error: Option<GameError>,
) -> bool {
    if bet > MAX_BET {
        post == pre && added.len() == 0 && error == Some(GameError::BetOverLimit)
    } else {
        exists|dealt: GameView, played: GameView|
            #![trigger round_plays(dealt, played, player, dealer, delta, error)]
            pre.deals_round(dealt, bet, delta) && round_plays(
                dealt,
                played,
                player,
                dealer,
                delta,
                error,
            ) && if error is Some {
                post == played && added.len() == 0
            } else {
                resolves(added, played.hands, played.dealer_hand.unwrap(), played.last_bet)
                    && post == (GameView { hands: Seq::empty(), dealer_hand: None, ..played })
            }
    }
}

/// The table that a game is made with from the settings: the settings'
/// shoe, no hands, and nothing played or counted yet.
pub open spec fn table_of<P, D, B, C, I>(settings: GameSettings<P, D, B, C, I>) -> GameView {
    GameView {
        shoe: settings.deck.shoe(),
        deck_count: settings.deck.deck_count,
        contains_blank: settings.deck.contains_blank,
        hands: Seq::empty(),
        dealer_hand: None,
        dealer_cutoff: settings.dealer_cutoff,
        played: Seq::empty(),
        running_count: 0,
        last_winner: Winner::Nobody,
        last_bet: 0,
        init_bet: settings.init_bet,
        max_splits: settings.max_splits,
        allow_early_surrender: settings.allow_early_surrender,
        allow_late_surrender: settings.allow_late_surrender,
    }
}

/// Whether `post` is the table `pre` after a run of `rounds` rounds, with
/// `added` as the results of their hands, round after round, and `error` as
/// what the run was given up for, if it was. The stake of each round is the
/// one the bet policy gives when it is shown the table with an empty hand
/// acting. The run ends with the first round that is given up.
pub open spec fn table_runs<P: PlayStrategy, D: PlayStrategy, B: BetStrategy>(
    pre: GameView,
    post: GameView,
    rounds: nat,
    player: P,
    dealer: D,
    bets: B,
    delta: spec_fn(Card) -> i8,
    added: Seq<(Winner, EndState)>,
    error: Option<GameError>,
) -> bool
    decreases rounds,
{
    if rounds == 0 {
        post == pre && added.len() == 0 && error is None
    } else {
        exists|mid: GameView, first: Seq<(Winner, EndState)>, stopped: Option<GameError>|
            #![trigger round_at_table(
                pre,
                mid,
                bets.stake(pre.snapshot(Some(empty_hand(pre.init_bet)))),
                player,
                dealer,
                delta,
                first,
                stopped,
            )]
            round_at_table(
                pre,
                mid,
                bets.stake(pre.snapshot(Some(empty_hand(pre.init_bet)))),
                player,
                dealer,
                delta,
                first,
                stopped,
            ) && if stopped is Some {
                post == mid && added == first && error == stopped
            } else {
                &&& first.len() <= added.len()
                &&& added.take(first.len() as int) == first
                &&& table_runs(
                    mid,
                    post,
                    (rounds - 1) as nat,
                    player,
                    dealer,
                    bets,
                    delta,
                    added.skip(first.len() as int),
                    error,
                )
            }
    }
}

/// The error that a round of the run was given up for, if one was.
pub open spec fn round_error_of(done: Result<(), SimulationError>) -> Option<GameError> {
    match done {
        Err(SimulationError::Round(error)) => Some(error),
        _ => None,
    }
}

/// A round that was played, and the rest of the run after it, are the run
/// from that round on.
pub proof fn lemma_runs_after_round<P: PlayStrategy, D: PlayStrategy, B: BetStrategy>(
    pre: GameView,
    mid: GameView,
    post: GameView,
    rounds: nat,
    player: P,
    dealer: D,
    bets: B,
    delta: spec_fn(Card) -> i8,
    first: Seq<(Winner, EndState)>,
    rest: Seq<(Winner, EndState)>,
    error: Option<GameError>,
)
    requires
        round_at_table(
            pre,
            mid,
            bets.stake(pre.snapshot(Some(empty_hand(pre.init_bet)))),
            player,
            dealer,
            delta,
            first,
            None,
        ),
        table_runs(mid, post, rounds, player, dealer, bets, delta, rest, error),
    ensures
        table_runs(pre, post, rounds + 1, player, dealer, bets, delta, first + rest, error),
{
    let added = first + rest;
    assert(added.take(first.len() as int) =~= first);
    assert(added.skip(first.len() as int) =~= rest);
    assert((rounds + 1 - 1) as nat == rounds);
}

/// A round that is given up ends the run.
pub proof fn lemma_run_stops<P: PlayStrategy, D: PlayStrategy, B: BetStrategy>(
    pre: GameView,
    mid: GameView,
    rounds: nat,
    player: P,
    dealer: D,
    bets: B,
    delta: spec_fn(Card) -> i8,
    first: Seq<(Winner, EndState)>,
    error: GameError,
)
    requires
        rounds > 0,
        round_at_table(
            pre,
            mid,
            bets.stake(pre.snapshot(Some(empty_hand(pre.init_bet)))),
            player,
            dealer,
            delta,
            first,
            Some(error),
        ),
    ensures
        table_runs(pre, mid, rounds, player, dealer, bets, delta, first, Some(error)),
{
}

/// The counts of a run.
#[derive(Debug, Copy, Clone, PartialEq, Eq, Structural)]
pub struct ResultSummary {
    /// The number of hands resolved.
    pub games: u64,
    pub player_wins: u64,
    /// The hands neither won by the player nor tied.
    pub dealer_wins: u64,
    pub ties: u64,
    /// What the hands paid the player in all, where that fits the type.
    pub payoff: Option<i64>,
}

/// What a run says of the player's losses.
#[derive(Debug, Copy, Clone, PartialEq, Eq, Structural)]
pub struct PlayerStats {
    /// The number of rounds begun.
    pub simulated_games: u64,
    /// The number of hands the dealer won.
    pub losses: u64,
    /// The number of hands in which the player went over 21.
    pub busts: u64,
}

/// The decimal digit for a number from 0 to 9.
pub open spec fn digit(n: nat) -> char {
    if n == 0 {
        '0'
    } else if n == 1 {
        '1'
    } else if n == 2 {
        '2'
    } else if n == 3 {
        '3'
    } else if n == 4 {
        '4'
    } else if n == 5 {
        '5'
    } else if n == 6 {
        '6'
    } else if n == 7 {
        '7'
    } else if n == 8 {
        '8'
    } else {
        '9'
    }
}

/// The decimal digits of a number, without leading zeros.
pub open spec fn digits(n: nat) -> Seq<char>
    decreases n,
{
    if n < 10 {
        seq![digit(n)]
    } else {
        digits(n / 10).push(digit(n % 10))
    }
}

/// The decimal digits of a number, with a comma before every group of three
/// digits but the first.
pub open spec fn grouped(n: nat) -> Seq<char>
    decreases n,
{
    if n < 1000 {
        digits(n)
    } else {
        grouped(n / 1000) + seq![',', digit(n % 1000 / 100), digit(n % 100 / 10), digit(n % 10)]
    }
}

/// A number as it is printed for an English reader: a minus sign where it is
/// negative, and its digits in groups of three.
pub open spec fn grouped_digits(n: int) -> Seq<char> {
    if n < 0 {
        seq!['-'] + grouped((-n) as nat)
    } else {
        grouped(n as nat)
    }
}

/// `num_format::ToFormattedString::to_formatted_string` with `Locale::en`:
/// the number in decimal digits, in groups of three with a comma between
/// them, behind a minus sign where it is negative.
#[verifier::external_body]
fn group_digits(n: i128) -> (text: String)
    ensures
        text@ == grouped_digits(n as int),
{
    n.to_formatted_string(&Locale::en)
}

/// The counts of a run as they are printed.
#[derive(Debug, Clone, PartialEq, Eq)]
pub struct SummaryText {
    pub games: String,
    pub player_wins: String,
    pub dealer_wins: String,
    pub ties: String,
    /// What the hands paid the player in all, where the summary has it.
    pub payoff: Option<String>,
}

impl ResultSummary {
    /// The counts as they are printed for an English reader: in decimal
    /// digits, in groups of three.
    pub fn formatted(&self) -> (text: SummaryText)
        ensures
            text.games@ == grouped_digits(self.games as int),
            text.player_wins@ == grouped_digits(self.player_wins as int),
            text.dealer_wins@ == grouped_digits(self.dealer_wins as int),
            text.ties@ == grouped_digits(self.ties as int),
            match self.payoff {
                Some(payoff) => text.payoff matches Some(text) && text@ == grouped_digits(
                    payoff as int,
                ),
                None => text.payoff is None,
            },
    {
        SummaryText {
            games: group_digits(self.games as i128),
            player_wins: group_digits(self.player_wins as i128),
            dealer_wins: group_digits(self.dealer_wins as i128),
            ties: group_digits(self.ties as i128),
            payoff: match self.payoff {
                Some(payoff) => Some(group_digits(payoff as i128)),
                None => None,
            },
        }
    }
}

/// `Arc::clone` on the settings: a second handle on the same settings.
#[verifier::external_body]
fn share<T>(settings: &Arc<T>) -> (shared: Arc<T>)
    ensures
        shared == *settings,
{
    settings.clone()
}

/// A table's settings and the results of the rounds played with them.
pub struct GamePool<P, D, B, C, I> {
    pub settings: Arc<GameSettings<P, D, B, C, I>>,
    pub results: Vec<(Winner, EndState)>,
    pub simulated_games: u64,
}

impl<P: PlayStrategy, D: PlayStrategy, B: BetStrategy, C: CountStrategy, I: InsuranceStrategy> GamePool<
    P,
    D,
    B,
    C,
    I,
> {
    /// A pool with no rounds played.
    pub fn new(settings: Arc<GameSettings<P, D, B, C, I>>) -> (pool: Self)
        ensures
            pool.settings == settings,
            pool.results@ == Seq::<(Winner, EndState)>::empty(),
            pool.simulated_games == 0,
    {
        GamePool { settings, results: Vec::new(), simulated_games: 0 }
    }

    /// The results added since `before`.
    pub open spec fn added_since(&self, before: &Self) -> Seq<(Winner, EndState)> {
        self.results@.skip(before.results@.len() as int)
    }

    /// Whether the pool holds the results of `before` and more after them.
    pub open spec fn extends(&self, before: &Self) -> bool {
        &&& self.settings == before.settings
        &&& self.results@.len() >= before.results@.len()
        &&& self.results@.take(before.results@.len() as int) == before.results@
    }

    /// Plays one round at the table and adds its results to the pool: the
    /// bet policy is asked for the stake, shown the game with an empty hand
    /// acting; the round is dealt and played; the hands are taken off the
    /// table. A stake over the table limit gives up the round before it is
    /// dealt.
    pub fn play_round(&mut self, game: &mut Game<P, D, B, C, I>) -> (done: Result<(), GameError>)
        requires
            old(game)@.wf(),
            old(self).simulated_games < u64::MAX,
        ensures
            final(self).simulated_games == old(self).simulated_games + 1,
            final(self).extends(old(self)),
            round_at_table(
                old(game)@,
                final(game)@,
                old(game).player.betting_strat.stake(
                    old(game)@.snapshot(Some(empty_hand(old(game)@.init_bet))),
                ),
                final(game).player.playing_strat,
                final(game).dealer.strategy,
                count_by(final(game).player.counting_strat),
                final(self).added_since(old(self)),
                error_of(done),
            ),
            ({
                let bet = old(game).player.betting_strat.stake(
                    old(game)@.snapshot(Some(empty_hand(old(game)@.init_bet))),
                );
                let added = final(self).added_since(old(self));
                match done {
                    Ok(_) => {
                        &&& bet <= MAX_BET
                        &&& final(game)@.last_bet == bet
                        &&& added.len() >= 1
                        &&& forall|i: int|
                            0 <= i < added.len() ==> (#[trigger] added[i]).1.hand_bet == bet
                                && added[i].0 != Winner::Nobody
                        &&& final(game)@.last_winner == round_winner(added)
                        &&& final(game)@.hands.len() == 0
                        &&& final(game)@.dealer_hand is None
                    },
                    Err(error) => {
                        &&& added.len() == 0
                        &&& error == GameError::BetOverLimit <==> bet > MAX_BET
                        &&& error == GameError::BetOverLimit ==> final(game)@ == old(game)@
                    },
                }
            }),
            old(game)@.same_rules(final(game)@.with_last_of(old(game)@)),
            old(game)@.draws_some(final(game)@, count_by(final(game).player.counting_strat)),
            final(game).same_policies(old(game)),
            final(game)@.wf(),
            old(game).tallied() ==> final(game).tallied(),
    {
        let ghost delta = count_by(game.player.counting_strat);
        proof {
            reveal(round_at_table);
            old(game)@.lemma_draws_none(delta);
            assert(old(game)@.with_round_of(old(game)@) == old(game)@);
        }
        self.simulated_games = self.simulated_games + 1;
        let state = game.get_state(Some(Hand::new(game.init_bet)));
        let hand_bet = game.player.decide_bet(state);
        if hand_bet > MAX_BET {
            proof {
                assert(self.results@.skip(self.results@.len() as int) =~= Seq::empty());
                assert(self.results@.take(self.results@.len() as int) =~= self.results@);
            }
            return Err(GameError::BetOverLimit);
        }
        game.deal(hand_bet);
        let ghost dealt = game@;
        proof {
            assert(dealt.with_round_of(old(game)@) == dealt.with_table_of(old(game)@));
        }
        let round = game.play_hand();
        proof {
            old(game)@.lemma_draws_some_more(dealt, game@, delta);
        }
        match round {
            Ok(mut hand_results) => {
                let ghost added = hand_results@;
                let ghost played = game@;
                self.results.append(&mut hand_results);
                game.reset_hands();
                proof {
                    assert(game@.with_round_of(old(game)@) == played.with_round_of(old(game)@));
                    let before = old(self).results@;
                    assert(self.results@.skip(before.len() as int) =~= added);
                    assert(self.results@.take(before.len() as int) =~= before);
                    assert(played.hands.len() >= 1);
                    assert forall|i: int| 0 <= i < added.len() implies (#[trigger] added[i]).1.hand_bet
                        == hand_bet && added[i].0 != Winner::Nobody by {
                        assert(added[i] == crate::run_hand::resolution(
                            played.hands[i],
                            played.dealer_hand.unwrap(),
                            played.last_bet,
                        ));
                    }
                }
                Ok(())
            },
            Err(error) => {
                proof {
                    assert(self.results@.skip(self.results@.len() as int) =~= Seq::empty());
                    assert(self.results@.take(self.results@.len() as int) =~= self.results@);
                }
                Err(error)
            },
        }
    }

    /// Plays `n` rounds, one after another, at a table made anew from the
    /// settings, and adds their results to the pool. The shoe is carried
    /// from round to round. The run is given up where no game can be made
    /// from the settings, and with the first round that is given up. A run
    /// of no rounds adds nothing.
    pub fn simulate(&mut self, n: u64) -> (done: Result<(), SimulationError>)
        requires
            old(self).simulated_games + n <= u64::MAX,
        ensures
            final(self).extends(old(self)),
            forall|i: int|
                old(self).results@.len() <= i < final(self).results@.len() ==> (
                #[trigger] final(self).results@[i]).0 != Winner::Nobody
                    && final(self).results@[i].1.hand_bet <= MAX_BET,
            match done {
                Ok(_) => {
                    &&& config_error(old(self).settings.deck, old(self).settings.init_bet) is None
                    &&& final(self).simulated_games == old(self).simulated_games + n
                    &&& final(self).results@.len() >= old(self).results@.len() + n
                },
                Err(SimulationError::Config(error)) => {
                    &&& config_error(old(self).settings.deck, old(self).settings.init_bet) == Some(
                        error,
                    )
                    &&& final(self).simulated_games == old(self).simulated_games
                    &&& final(self).results@ == old(self).results@
                },
                Err(SimulationError::Round(_)) => {
                    &&& config_error(old(self).settings.deck, old(self).settings.init_bet) is None
                    &&& old(self).simulated_games < final(self).simulated_games
                        <= old(self).simulated_games + n
                },
            },
            !(done matches Err(SimulationError::Config(_))) ==> exists|end: GameView| #[trigger]
                table_runs(
                    table_of(*old(self).settings),
                    end,
                    n as nat,
                    old(self).settings.player_strat,
                    old(self).settings.dealer_strat,
                    old(self).settings.betting_strat,
                    count_by(old(self).settings.counting_strat),
                    final(self).added_since(old(self)),
                    round_error_of(done),
                ),
    {
        let mut bj = match Game::from_settings(share(&self.settings)) {
            Ok(game) => game,
            Err(error) => {
                proof {
                    assert(self.results@.take(self.results@.len() as int) =~= self.results@);
                }
                return Err(SimulationError::Config(error));
            },
        };
        let ghost start = bj@;
        let ghost player = bj.player.playing_strat;
        let ghost dealer = bj.dealer.strategy;
        let ghost bets = bj.player.betting_strat;
        let ghost delta = count_by(bj.player.counting_strat);
        proof {
            assert(self.results@.take(self.results@.len() as int) =~= self.results@);
            assert(start == table_of(*old(self).settings));
            assert(self.added_since(old(self)) =~= Seq::empty());
            assert forall|
                post: GameView,
                rest: Seq<(Winner, EndState)>,
                error: Option<GameError>,
                left: nat,
            | #[trigger]
                table_runs(bj@, post, left, player, dealer, bets, delta, rest, error) implies table_runs(
                start,
                post,
                left + 0,
                player,
                dealer,
                bets,
                delta,
                self.added_since(old(self)) + rest,
                error,
            ) by {
                assert(self.added_since(old(self)) + rest =~= rest);
            }
        }
        let mut round: u64 = 0;
        while round < n
            invariant
                start == table_of(*old(self).settings),
                player == old(self).settings.player_strat,
                dealer == old(self).settings.dealer_strat,
                bets == old(self).settings.betting_strat,
                delta == count_by(old(self).settings.counting_strat),
                bj.player.playing_strat == player,
                bj.dealer.strategy == dealer,
                bj.player.betting_strat == bets,
                count_by(bj.player.counting_strat) == delta,
                forall|
                    post: GameView,
                    rest: Seq<(Winner, EndState)>,
                    error: Option<GameError>,
                    left: nat,
                | #[trigger]
                    table_runs(bj@, post, left, player, dealer, bets, delta, rest, error)
                        ==> table_runs(
                        start,
                        post,
                        left + round as nat,
                        player,
                        dealer,
                        bets,
                        delta,
                        self.added_since(old(self)) + rest,
                        error,
                    ),
                round <= n,
                old(self).simulated_games + n <= u64::MAX,
                config_error(old(self).settings.deck, old(self).settings.init_bet) is None,
                bj@.wf(),
                self.extends(old(self)),
                self.simulated_games == old(self).simulated_games + round,
                self.results@.len() >= old(self).results@.len() + round,
                forall|i: int|
                    old(self).results@.len() <= i < self.results@.len() ==> (
                    #[trigger] self.results@[i]).0 != Winner::Nobody && self.results@[i].1.hand_bet
                        <= MAX_BET,
            decreases n - round,
        {
            let ghost before = *self;
            let ghost table = bj@;
            let ghost so_far = self.added_since(old(self));
            let played = self.play_round(&mut bj);
            let ghost first = self.added_since(&before);
            proof {
                assert(self.added_since(old(self)) =~= so_far + first);
            }
            proof {
                let start = old(self).results@.len() as int;
                let added = self.added_since(&before);
                assert(self.results@.take(start) =~= before.results@.take(start));
                assert(added.len() == self.results@.len() - before.results@.len());
                assert forall|i: int| start <= i < self.results@.len() implies (
                #[trigger] self.results@[i]).0 != Winner::Nobody && self.results@[i].1.hand_bet
                    <= MAX_BET by {
                    if i < before.results@.len() {
                        assert(self.results@[i] == self.results@.take(
                            before.results@.len() as int,
                        )[i]);
                    } else {
                        assert(self.results@[i] == added[i - before.results@.len()]);
                    }
                }
            }
            match played {
                Ok(_) => {
                    proof {
                        assert forall|
                            post: GameView,
                            rest: Seq<(Winner, EndState)>,
                            error: Option<GameError>,
                            left: nat,
                        | #[trigger]
                            table_runs(
                                bj@,
                                post,
                                left,
                                player,
                                dealer,
                                bets,
                                delta,
                                rest,
                                error,
                            ) implies table_runs(
                            start,
                            post,
                            left + (round + 1) as nat,
                            player,
                            dealer,
                            bets,
                            delta,
                            self.added_since(old(self)) + rest,
                            error,
                        ) by {
                            lemma_runs_after_round(
                                table,
                                bj@,
                                post,
                                left,
                                player,
                                dealer,
                                bets,
                                delta,
                                first,
                                rest,
                                error,
                            );
                            assert((so_far + first) + rest =~= so_far + (first + rest));
                        }
                    }
                },
                Err(error) => {
                    proof {
                        lemma_run_stops(
                            table,
                            bj@,
                            (n - round) as nat,
                            player,
                            dealer,
                            bets,
                            delta,
                            first,
                            error,
                        );
                        assert(table_runs(
                            start,
                            bj@,
                            n as nat,
                            player,
                            dealer,
                            bets,
                            delta,
                            self.added_since(old(self)),
                            Some(error),
                        ));
                    }
                    return Err(SimulationError::Round(error));
                },
            }
            round += 1;
        }
        proof {
            let added = self.added_since(old(self));
            assert(table_runs(
                bj@,
                bj@,
                0,
                player,
                dealer,
                bets,
                delta,
                Seq::<(Winner, EndState)>::empty(),
                None,
            ));
            assert(added + Seq::<(Winner, EndState)>::empty() =~= added);
            assert(table_runs(start, bj@, n as nat, player, dealer, bets, delta, added, None));
        }
        Ok(())
    }

    /// The results with the given winner, in their order.
    fn results_won_by(&self, who: Winner) -> (won: Vec<(Winner, EndState)>)
        ensures
            won@ == results_of(self.results@, who),
    {
        let mut won: Vec<(Winner, EndState)> = Vec::new();
        let mut i: usize = 0;
        while i < self.results.len()
            invariant
                i <= self.results@.len(),
                won@ == results_of(self.results@.take(i as int), who),
            decreases self.results@.len() - i,
        {
            proof {
                assert(self.results@.take(i + 1).drop_last() =~= self.results@.take(i as int));
            }
            let result = self.results[i];
            if result.0 == who {
                won.push(result);
            }
            i += 1;
        }
        assert(self.results@.take(i as int) =~= self.results@);
        won
    }

    /// The hands the player won.
    pub fn get_player_wins(&self) -> (wins: Vec<(Winner, EndState)>)
        ensures
            wins@ == results_of(self.results@, Winner::Player),
    {
        self.results_won_by(Winner::Player)
    }

    /// The hands the dealer won.
    pub fn get_dealer_wins(&self) -> (wins: Vec<(Winner, EndState)>)
        ensures
            wins@ == results_of(self.results@, Winner::Dealer),
    {
        self.results_won_by(Winner::Dealer)
    }

    /// The hands that were tied.
    pub fn get_ties(&self) -> (ties: Vec<(Winner, EndState)>)
        ensures
            ties@ == results_of(self.results@, Winner::Tie),
    {
        self.results_won_by(Winner::Tie)
    }

    /// What the hands paid the player in all, or nothing where the sum does
    /// not fit the type.
    pub fn get_player_payoff(&self) -> (payoff: Option<i64>)
        ensures
            match payoff {
                Some(payoff) => payoff == total_payoff(self.results@),
                None => total_payoff(self.results@) < i64::MIN || total_payoff(self.results@)
                    > i64::MAX,
            },
    {
        let mut total_payoff: i128 = 0;
        let mut i: usize = 0;
        while i < self.results.len()
            invariant
                i <= self.results@.len(),
                total_payoff == self::total_payoff(self.results@.take(i as int)),
                -0x2_0000_0000 * i <= total_payoff <= 0x2_0000_0000 * i,
            decreases self.results@.len() - i,
        {
            proof {
                assert(self.results@.take(i + 1).drop_last() =~= self.results@.take(i as int));
            }
            let (winner, state) = self.results[i];
            let bet: i128 = state.hand_bet as i128;
            let hand_payoff: i128 = match winner {
                Winner::Player => {
                    if state.p_natural && !state.d_natural {
                        (bet * 3) / 2
                    } else if state.p_doubled {
                        bet * 2
                    } else {
                        bet
                    }
                },
                Winner::Dealer => -bet,
                Winner::Tie => 0,
                Winner::Nobody => 0,
            };
            total_payoff = total_payoff + hand_payoff;
            i += 1;
        }
        assert(self.results@.take(i as int) =~= self.results@);
        if total_payoff < i64::MIN as i128 || total_payoff > i64::MAX as i128 {
            None
        } else {
            Some(total_payoff as i64)
        }
    }

    /// The number of results with the given winner, and the number of
    /// results in which the player went over 21.
    fn tally(&self, who: Winner) -> (counts: (u64, u64))
        ensures
            counts.0 == wins_of(self.results@, who),
            counts.1 == busts_in(self.results@),
    {
        let mut wins: u64 = 0;
        let mut busts: u64 = 0;
        let mut i: usize = 0;
        while i < self.results.len()
            invariant
                i <= self.results@.len(),
                wins == wins_of(self.results@.take(i as int), who),
                busts == busts_in(self.results@.take(i as int)),
                wins <= i,
                busts <= i,
            decreases self.results@.len() - i,
        {
            proof {
                assert(self.results@.take(i + 1).drop_last() =~= self.results@.take(i as int));
            }
            let (winner, state) = self.results[i];
            if winner == who {
                wins += 1;
            }
            if state.p_bust {
                busts += 1;
            }
            i += 1;
        }
        assert(self.results@.take(i as int) =~= self.results@);
        (wins, busts)
    }

    /// What the run says of the player's losses: the rounds begun, the hands
    /// the dealer won, and the hands in which the player went over 21.
    pub fn sum_player_stats(&self) -> (stats: PlayerStats)
        ensures
            stats.simulated_games == self.simulated_games,
            stats.losses == wins_of(self.results@, Winner::Dealer),
            stats.busts == busts_in(self.results@),
    {
        let (losses, busts) = self.tally(Winner::Dealer);
        PlayerStats { simulated_games: self.simulated_games, losses, busts }
    }

    /// The counts of the run: the hands resolved, those the player won,
    /// those tied, the rest as the dealer's, and what the hands paid.
    pub fn sum_results(&self) -> (summary: ResultSummary)
        ensures
            summary.games == self.results@.len(),
            summary.player_wins == wins_of(self.results@, Winner::Player),
            summary.ties == wins_of(self.results@, Winner::Tie),
            summary.dealer_wins == self.results@.len() - wins_of(self.results@, Winner::Player)
                - wins_of(self.results@, Winner::Tie),
            summary.dealer_wins == wins_of(self.results@, Winner::Dealer) + wins_of(
                self.results@,
                Winner::Nobody,
            ),
            summary.payoff == self.get_player_payoff_spec(),
    {
        let (player_wins, _) = self.tally(Winner::Player);
        let (ties, _) = self.tally(Winner::Tie);
        proof {
            lemma_wins_are_disjoint(self.results@);
        }
        let games: u64 = self.results.len() as u64;
        ResultSummary {
            games,
            player_wins,
            dealer_wins: games - (player_wins + ties),
            ties,
            payoff: self.get_player_payoff(),
        }
    }

    /// What the hands paid the player in all, where that fits the type.
    pub open spec fn get_player_payoff_spec(&self) -> Option<i64> {
        if i64::MIN <= total_payoff(self.results@) <= i64::MAX {
            Some(total_payoff(self.results@) as i64)
        } else {
            None
        }
    }
}

} // verus!
