use game::betting_strategy::{ConstantBet, Martingale};
use game::deck::MultiDeck;
use game::playing_strategy::{BasicStrategy, DealerPlay, HiLo, NaiveSoft, NoInsurance};
use game::run_many::{GamePool, PlayerStats, ResultSummary, SimulationError, SummaryText};
use game::{ConfigError, EndState, Game, GameError, GameSettings, Winner, MAX_BET};
use rand::SeedableRng;
use rand_chacha::ChaCha8Rng;
use std::sync::Arc;

type Pool = GamePool<BasicStrategy, DealerPlay, ConstantBet, HiLo, NoInsurance>;

fn settings(
    decks: u8,
    contains_blank: bool,
    seed: u64,
) -> GameSettings<BasicStrategy, DealerPlay, ConstantBet, HiLo, NoInsurance> {
    let mut rng = ChaCha8Rng::seed_from_u64(seed);
    let mut deck = MultiDeck::new(decks, contains_blank);
    deck.shuffle(&mut rng);
    GameSettings {
        deck,
        max_splits: 3,
        contains_blank,
        init_bet: 10,
        dealer_cutoff: 17,
        dealer_strat: DealerPlay,
        player_strat: BasicStrategy,
        betting_strat: ConstantBet,
        counting_strat: HiLo,
        insurance_strat: NoInsurance,
        allow_early_surrender: false,
        allow_late_surrender: false,
        rng,
    }
}

fn pool_with(results: Vec<(Winner, EndState)>) -> Pool {
    let mut pool = GamePool::new(Arc::new(settings(6, false, 1)));
    pool.results = results;
    pool
}

fn end(hand_bet: u32) -> EndState {
    EndState { hand_bet, ..EndState::default() }
}

#[test]
fn new_pool_is_empty() {
    let pool: Pool = GamePool::new(Arc::new(settings(6, false, 1)));
    assert!(pool.results.is_empty());
    assert_eq!(pool.simulated_games, 0);
    assert_eq!(pool.settings.init_bet, 10);
    assert_eq!(pool.get_player_payoff(), Some(0));
}

#[test]
fn simulate_with_the_blank_rebuilds_the_shoe() {
    let mut pool: Pool = GamePool::new(Arc::new(settings(2, true, 4)));
    assert_eq!(pool.simulate(2000), Ok(()));
    assert_eq!(pool.simulated_games, 2000);
    assert!(pool.results.len() >= 2000);
}

#[test]
fn simulate_adds_to_the_pool() {
    let mut pool: Pool = GamePool::new(Arc::new(settings(6, false, 1)));
    assert_eq!(pool.simulate(50), Ok(()));
    let first = pool.results.clone();
    assert_eq!(pool.simulated_games, 50);
    assert_eq!(pool.simulate(0), Ok(()));
    assert_eq!(pool.results, first);
    assert_eq!(pool.simulate(25), Ok(()));
    assert_eq!(pool.simulated_games, 75);
    assert_eq!(pool.results[..first.len()], first[..]);
    assert!(pool.results.len() >= first.len() + 25);
    assert_eq!(pool.settings.deck.decks.cards.len(), 312);
}

#[test]
fn simulate_is_given_up_on_bad_settings() {
    let mut bad = settings(6, false, 1);
    bad.deck = MultiDeck::new(0, false);
    let mut pool: Pool = GamePool::new(Arc::new(bad));
    assert_eq!(pool.simulate(10), Err(SimulationError::Config(ConfigError::NoDecks)));
    assert_eq!(pool.simulated_games, 0);
    assert!(pool.results.is_empty());
}

#[test]
fn play_round_plays_one_round_and_clears_the_table() {
    let settings = Arc::new(settings(6, false, 3));
    let mut game = Game::from_settings(settings.clone()).unwrap();
    let mut pool = GamePool::new(settings);
    assert_eq!(pool.play_round(&mut game), Ok(()));
    assert_eq!(pool.simulated_games, 1);
    assert!(!pool.results.is_empty());
    assert!(game.player.hands.is_empty());
    assert!(game.dealer.hand.is_none());
    assert_eq!(game.last_bet, 10);
    assert_ne!(game.last_winner, Winner::Nobody);
    assert!(game.played_cards.len() >= 4);
    assert!(pool.results.iter().all(|(_, state)| state.hand_bet == 10));
}

#[test]
fn martingale_run_doubles_after_a_loss() {
    let mut rng = ChaCha8Rng::seed_from_u64(6);
    let mut deck = MultiDeck::new(6, false);
    deck.shuffle(&mut rng);
    let settings = Arc::new(GameSettings {
        deck,
        max_splits: 3,
        contains_blank: false,
        init_bet: 10,
        dealer_cutoff: 17,
        dealer_strat: DealerPlay,
        player_strat: NaiveSoft,
        betting_strat: Martingale,
        counting_strat: HiLo,
        insurance_strat: NoInsurance,
        allow_early_surrender: false,
        allow_late_surrender: false,
        rng,
    });
    let mut game = Game::from_settings(settings.clone()).unwrap();
    let mut pool = GamePool::new(settings);
    let mut expected = 10;
    for _ in 0..20 {
        assert_eq!(pool.play_round(&mut game), Ok(()));
        assert_eq!(game.last_bet, expected);
        assert_eq!(pool.results.last().unwrap().1.hand_bet, expected);
        expected = match game.last_winner {
            Winner::Dealer => 2 * expected,
            Winner::Player => 10,
            Winner::Tie => expected,
            Winner::Nobody => unreachable!(),
        };
    }
}

#[test]
fn results_by_winner() {
    let pool = pool_with(vec![
        (Winner::Player, end(1)),
        (Winner::Dealer, end(2)),
        (Winner::Tie, end(3)),
        (Winner::Player, end(4)),
        (Winner::Nobody, end(5)),
        (Winner::Dealer, end(6)),
        (Winner::Player, end(7)),
    ]);
    assert_eq!(
        pool.get_player_wins(),
        vec![(Winner::Player, end(1)), (Winner::Player, end(4)), (Winner::Player, end(7))]
    );
    assert_eq!(pool.get_dealer_wins(), vec![(Winner::Dealer, end(2)), (Winner::Dealer, end(6))]);
    assert_eq!(pool.get_ties(), vec![(Winner::Tie, end(3))]);
    assert!(pool_with(vec![]).get_player_wins().is_empty());
}

#[test]
fn payoff_by_result() {
    let natural = EndState { p_natural: true, ..end(10) };
    let natural_odd = EndState { p_natural: true, ..end(5) };
    let both_natural = EndState { p_natural: true, d_natural: true, ..end(10) };
    let doubled = EndState { p_doubled: true, ..end(10) };
    let doubled_natural = EndState { p_natural: true, p_doubled: true, ..end(10) };
    let given_up = EndState { p_surrender_late: true, ..end(10) };
    assert_eq!(pool_with(vec![(Winner::Player, natural)]).get_player_payoff(), Some(15));
    assert_eq!(pool_with(vec![(Winner::Player, natural_odd)]).get_player_payoff(), Some(7));
    assert_eq!(pool_with(vec![(Winner::Player, both_natural)]).get_player_payoff(), Some(10));
    assert_eq!(pool_with(vec![(Winner::Player, doubled)]).get_player_payoff(), Some(20));
    assert_eq!(pool_with(vec![(Winner::Player, doubled_natural)]).get_player_payoff(), Some(15));
    assert_eq!(pool_with(vec![(Winner::Player, end(10))]).get_player_payoff(), Some(10));
    assert_eq!(pool_with(vec![(Winner::Dealer, end(10))]).get_player_payoff(), Some(-10));
    assert_eq!(pool_with(vec![(Winner::Dealer, doubled)]).get_player_payoff(), Some(-10));
    assert_eq!(pool_with(vec![(Winner::Dealer, given_up)]).get_player_payoff(), Some(-10));
    assert_eq!(pool_with(vec![(Winner::Tie, end(10))]).get_player_payoff(), Some(0));
    assert_eq!(pool_with(vec![(Winner::Nobody, end(10))]).get_player_payoff(), Some(0));
    assert_eq!(
        pool_with(vec![
            (Winner::Player, natural),
            (Winner::Dealer, end(10)),
            (Winner::Player, doubled),
            (Winner::Tie, end(10)),
            (Winner::Dealer, end(30)),
        ])
        .get_player_payoff(),
        Some(-5)
    );
}

#[test]
fn payoff_of_the_largest_stakes() {
    let doubled = EndState { p_doubled: true, ..end(u32::MAX) };
    assert_eq!(
        pool_with(vec![(Winner::Player, doubled)]).get_player_payoff(),
        Some(2 * u32::MAX as i64)
    );
    let natural = EndState { p_natural: true, ..end(u32::MAX) };
    assert_eq!(
        pool_with(vec![(Winner::Player, natural)]).get_player_payoff(),
        Some(6442450942)
    );
    assert_eq!(
        pool_with(vec![(Winner::Dealer, end(u32::MAX)); 3]).get_player_payoff(),
        Some(-3 * u32::MAX as i64)
    );
}

#[test]
fn summary_counts() {
    let bust = EndState { p_bust: true, ..end(10) };
    let pool = pool_with(vec![
        (Winner::Player, end(10)),
        (Winner::Dealer, bust),
        (Winner::Tie, end(10)),
        (Winner::Player, end(10)),
        (Winner::Nobody, end(10)),
        (Winner::Dealer, end(10)),
        (Winner::Dealer, bust),
    ]);
    assert_eq!(
        pool.sum_results(),
        ResultSummary { games: 7, player_wins: 2, dealer_wins: 4, ties: 1, payoff: Some(-10) }
    );
    assert_eq!(
        pool.sum_player_stats(),
        PlayerStats { simulated_games: 0, losses: 3, busts: 2 }
    );
    assert_eq!(
        pool_with(vec![]).sum_results(),
        ResultSummary { games: 0, player_wins: 0, dealer_wins: 0, ties: 0, payoff: Some(0) }
    );
}

#[test]
fn summary_of_a_run_adds_up() {
    let mut pool: Pool = GamePool::new(Arc::new(settings(6, false, 8)));
    assert_eq!(pool.simulate(3000), Ok(()));
    let summary = pool.sum_results();
    assert_eq!(summary.games as usize, pool.results.len());
    assert_eq!(summary.player_wins + summary.dealer_wins + summary.ties, summary.games);
    assert_eq!(summary.player_wins as usize, pool.get_player_wins().len());
    assert_eq!(summary.dealer_wins as usize, pool.get_dealer_wins().len());
    assert_eq!(summary.ties as usize, pool.get_ties().len());
    assert_eq!(summary.payoff, pool.get_player_payoff());
    assert!(summary.player_wins > 0 && summary.dealer_wins > 0 && summary.ties > 0);
    let stats = pool.sum_player_stats();
    assert_eq!(stats.simulated_games, 3000);
    assert_eq!(stats.losses, summary.dealer_wins);
    assert!(stats.busts <= stats.losses);
    assert!(stats.busts > 0);
}

#[test]
fn same_settings_give_the_same_run() {
    let shared = Arc::new(settings(6, true, 12));
    let mut first: Pool = GamePool::new(shared.clone());
    let mut second: Pool = GamePool::new(shared);
    assert_eq!(first.simulate(500), Ok(()));
    assert_eq!(second.simulate(500), Ok(()));
    assert_eq!(first.results, second.results);
}

#[test]
fn errors_say_what_went_wrong() {
    assert_eq!(ConfigError::NoDecks.to_string(), "the shoe needs at least one deck");
    assert_eq!(
        ConfigError::BlankNeedsTwoDecks.to_string(),
        "a shoe with a cut card needs two decks"
    );
    assert_eq!(
        ConfigError::ShoeOverfull.to_string(),
        "the shoe holds more cards than its decks have"
    );
    assert_eq!(
        ConfigError::BlankUncovered.to_string(),
        "a cut card lies on no playing card"
    );
    assert_eq!(ConfigError::BetOverLimit.to_string(), "the base stake is over the table limit");
    assert_eq!(
        GameError::InvalidSplit.to_string(),
        "a split was asked for on a hand that is no pair"
    );
    assert_eq!(
        GameError::HandFull.to_string(),
        "a card was asked for on a hand that can take no more"
    );
    assert_eq!(
        GameError::TooManyHands.to_string(),
        "a split was asked for on a full table"
    );
    assert_eq!(GameError::DealerDecision.to_string(), "the dealer may only hit or stand");
    assert_eq!(GameError::BetOverLimit.to_string(), "the stake is over the table limit");
    assert_eq!(
        SimulationError::Config(ConfigError::NoDecks).to_string(),
        ConfigError::NoDecks.to_string()
    );
    assert_eq!(
        SimulationError::Round(GameError::HandFull).to_string(),
        GameError::HandFull.to_string()
    );
}

#[test]
fn martingale_run_is_given_up_at_the_table_limit() {
    let mut rng = ChaCha8Rng::seed_from_u64(6);
    let mut deck = MultiDeck::new(6, false);
    deck.shuffle(&mut rng);
    let settings = Arc::new(GameSettings {
        deck,
        max_splits: 3,
        contains_blank: false,
        init_bet: MAX_BET / 2 + 1,
        dealer_cutoff: 17,
        dealer_strat: DealerPlay,
        player_strat: NaiveSoft,
        betting_strat: Martingale,
        counting_strat: HiLo,
        insurance_strat: NoInsurance,
        allow_early_surrender: false,
        allow_late_surrender: false,
        rng,
    });
    let mut pool = GamePool::new(settings);
    assert_eq!(pool.simulate(1000), Err(SimulationError::Round(GameError::BetOverLimit)));
    assert!(pool.simulated_games >= 2);
    assert!(pool.simulated_games < 1000);
    assert_eq!(pool.results.last().unwrap().0, Winner::Dealer);
    assert!(pool.results.iter().all(|(_, state)| state.hand_bet == MAX_BET / 2 + 1));
}

#[test]
fn game_checks_itself() {
    let settings = Arc::new(settings(6, false, 3));
    let mut game = Game::from_settings(settings).unwrap();
    assert!(game.is_well_formed());
    assert!(!game.is_dealt());
    game.deal(10);
    assert!(game.is_well_formed());
    assert!(game.is_dealt());
    game.play_hand().unwrap();
    assert!(game.is_well_formed());
    assert!(game.is_dealt());

    game.running_count = 1000;
    assert!(!game.is_well_formed());
    game.running_count = 0;
    game.last_bet = MAX_BET + 1;
    assert!(!game.is_well_formed());
    game.last_bet = 10;
    assert!(game.is_well_formed());
    let mut cards = Vec::new();
    for _ in 0..26 {
        cards.push(game::deck::Card::from_rank(game::deck::Rank::Ten));
    }
    let full = game::deck::Hand::from_cards(cards, 10, false, false, false);
    assert!(!full.is_sound());
    game.set_player_hands(vec![full]);
    assert!(!game.is_well_formed());
    game.set_player_hands(vec![game::deck::Hand::new(10)]);
    assert!(game.is_well_formed());
    assert!(!game.is_dealt());
    game.deck.decks.cards.insert(0, game::deck::Card::from_rank(game::deck::Rank::Blank));
    assert!(!game.is_well_formed());
}

#[test]
fn summary_is_printed_in_groups_of_three() {
    let summary = ResultSummary {
        games: 10000000,
        player_wins: 4321098,
        dealer_wins: 999,
        ties: 1000,
        payoff: Some(-1234567),
    };
    assert_eq!(
        summary.formatted(),
        SummaryText {
            games: "10,000,000".to_string(),
            player_wins: "4,321,098".to_string(),
            dealer_wins: "999".to_string(),
            ties: "1,000".to_string(),
            payoff: Some("-1,234,567".to_string()),
        }
    );
    let summary = ResultSummary {
        games: u64::MAX,
        player_wins: 0,
        dealer_wins: 7,
        ties: 100100,
        payoff: None,
    };
    assert_eq!(
        summary.formatted(),
        SummaryText {
            games: "18,446,744,073,709,551,615".to_string(),
            player_wins: "0".to_string(),
            dealer_wins: "7".to_string(),
            ties: "100,100".to_string(),
            payoff: None,
        }
    );
    let least = ResultSummary { payoff: Some(i64::MIN), ..summary };
    assert_eq!(least.formatted().payoff, Some("-9,223,372,036,854,775,808".to_string()));
    let small = ResultSummary { payoff: Some(-12), ..summary };
    assert_eq!(small.formatted().payoff, Some("-12".to_string()));
    let most = ResultSummary { payoff: Some(1000000), ..summary };
    assert_eq!(most.formatted().payoff, Some("1,000,000".to_string()));
}
