use game::betting_strategy::{kelly_criterion, BetStrategy, ConstantBet, Martingale};
use game::deck::{Card, Hand, HandState, MultiDeck, Rank, Suit};
use game::participants::{Dealer, Player};
use game::playing_strategy::{
    BasicStrategy, CountStrategy, CutoffOnly, DealerPlay, DealerUpcardStrength, DoubleOnly, HiLo,
    InsuranceStrategy, KnockOut, MimicDealer, NaiveSoft, NoInsurance, OmegaTwo, PlayStrategy,
    PlayerDecision, SplitOnly, StrategyFunc,
};
use game::run_hand::{determine_last_winner, resolve_hand};
use game::run_many::GamePool;
use game::{
    ConfigError, EndState, Game, GameError, GameSettings, GameState, TrueCount, Winner, MAX_BET,
};
use rand::SeedableRng;
use rand_chacha::ChaCha8Rng;
use std::sync::Arc;

fn card(rank: Rank, suit: Suit) -> Card {
    Card { rank, suit, soft: true }
}

fn hand_of(cards: Vec<Card>, bet: u32) -> Hand {
    Hand::from_cards(cards, bet, false, false, false)
}

fn settings_with<P, D, B, C, I>(
    deck: MultiDeck,
    player_strat: P,
    dealer_strat: D,
    betting_strat: B,
    counting_strat: C,
    insurance_strat: I,
    rng: ChaCha8Rng,
) -> GameSettings<P, D, B, C, I> {
    GameSettings {
        deck,
        max_splits: 3,
        contains_blank: true,
        init_bet: 10,
        dealer_cutoff: 17,
        dealer_strat,
        player_strat,
        betting_strat,
        counting_strat,
        insurance_strat,
        allow_early_surrender: false,
        allow_late_surrender: false,
        rng,
    }
}

fn shuffled_shoe(decks: u8, contains_blank: bool) -> (MultiDeck, ChaCha8Rng) {
    let mut rng = ChaCha8Rng::seed_from_u64(2);
    let mut deck = MultiDeck::new(decks, contains_blank);
    deck.shuffle(&mut rng);
    (deck, rng)
}

fn standard_game<P, D, B, C, I>(
    player_strat: P,
    dealer_strat: D,
    betting_strat: B,
    counting_strat: C,
    insurance_strat: I,
) -> Game<P, D, B, C, I>
where
    P: PlayStrategy,
    D: PlayStrategy,
    B: BetStrategy,
    C: CountStrategy,
    I: InsuranceStrategy,
{
    let (deck, rng) = shuffled_shoe(6, false);
    let settings = settings_with(
        deck,
        player_strat,
        dealer_strat,
        betting_strat,
        counting_strat,
        insurance_strat,
        rng,
    );
    Game::from_settings(Arc::new(settings)).unwrap()
}

fn basic_game() -> Game<BasicStrategy, DealerPlay, ConstantBet, HiLo, NoInsurance> {
    standard_game(BasicStrategy, DealerPlay, ConstantBet, HiLo, NoInsurance)
}

fn set_hands<P, D, B, C, I>(game: &mut Game<P, D, B, C, I>, dealer_hand: Hand, player_hands: Vec<Hand>)
where
    P: PlayStrategy,
    D: PlayStrategy,
    B: BetStrategy,
    C: CountStrategy,
    I: InsuranceStrategy,
{
    game.set_player_hands(player_hands);
    game.set_dealer_hand(dealer_hand);
}

fn test_decision(
    dealer_hand: Hand,
    player_hands: Vec<Hand>,
    expected_decision: PlayerDecision,
) -> Game<BasicStrategy, DealerPlay, ConstantBet, HiLo, NoInsurance> {
    let mut test_game = basic_game();

    set_hands(&mut test_game, dealer_hand, player_hands.clone());

    let state = test_game.get_state(Some(player_hands[0].clone()));

    let decision = test_game.player.decide_play(state);

    assert_eq!(decision, expected_decision);

    test_game.play_hand().unwrap();

    test_game
}

fn decision_of<P: PlayStrategy>(
    strategy: P,
    player_cards: Vec<Card>,
    dealer_cards: Vec<Card>,
    doubled: bool,
) -> PlayerDecision {
    let mut game = standard_game(strategy, DealerPlay, ConstantBet, HiLo, NoInsurance);
    let hand = Hand::from_cards(player_cards, 10, doubled, false, false);
    set_hands(&mut game, hand_of(dealer_cards, 10), vec![hand.clone()]);
    game.player.decide_play(game.get_state(Some(hand)))
}

// |-------------------------|
// |     Game Setup Tests    |
// |-------------------------|

#[test]
fn game_creation() {
    let (deck, rng) = shuffled_shoe(6, false);
    let mut settings =
        settings_with(deck, BasicStrategy, DealerPlay, ConstantBet, HiLo, NoInsurance, rng);
    settings.contains_blank = false;

    let bj = Game::from_settings(Arc::new(settings)).unwrap();

    assert!(bj.played_cards.is_empty());
    assert!(bj.dealer.hand.is_none());
    assert!(bj.player.hands.is_empty());
}

/// Ensures correct dealing of cards
/// - Player given one hand w/ two cards
/// - Dealer given hand w/ two cards
#[test]
fn deal() {
    let (deck, rng) = shuffled_shoe(6, false);
    let settings =
        settings_with(deck, BasicStrategy, DealerPlay, ConstantBet, HiLo, NoInsurance, rng);

    let bet = settings.init_bet.clone();
    let mut bj = Game::from_settings(Arc::new(settings)).unwrap();

    bj.deal(bet);

    assert!(bj.dealer.hand.is_some());
    assert!(bj.get_dealer_upcard().is_some());

    let dealer_cards = bj.dealer.hand.expect("").cards.len();
    let num_player_hands = bj.player.hands.len();
    let num_player_cards = bj.player.hands.first().expect("No hand").cards.len();

    // Asserts
    assert_eq!(dealer_cards, 2);
    assert_eq!(num_player_hands, 1);
    assert_eq!(num_player_cards, 2);
}

#[test]
fn test_blank() {
    let (deck, rng) = shuffled_shoe(6, false);
    let settings =
        settings_with(deck, BasicStrategy, DealerPlay, ConstantBet, HiLo, NoInsurance, rng);

    let mut test_pool = GamePool::new(Arc::new(settings));

    assert_eq!(test_pool.simulate(100), Ok(()));
    assert_eq!(test_pool.simulated_games, 100);
    assert!(test_pool.results.len() >= 100);
}

#[test]
fn run_hand() {
    let (deck, rng) = shuffled_shoe(6, false);
    let settings =
        settings_with(deck, BasicStrategy, DealerPlay, ConstantBet, HiLo, NoInsurance, rng);

    let bet = settings.init_bet.clone();
    let mut bj = Game::from_settings(Arc::new(settings)).unwrap();

    bj.deal(bet);

    let res: Vec<(game::Winner, EndState)> = bj.play_hand().unwrap();
    assert_eq!(res.is_empty(), false);
    let player_values: Vec<u8> = bj.player.hands.iter().map(|hand| hand.value()).collect();

    println!("\nRESULTS");
    println!("Dealer FV: {}", bj.dealer.hand.expect("").value());
    println!("Player FV's: {:?}", player_values);
    println!("Winner: {:?}", res);
}

// |-------------------------|
// |      Decision Tests     |
// |-------------------------|

/// Tests player split on pairs of Aces and Eights
#[test]
fn test_split() {
    // Aces
    let dealer_cards = vec![card(Rank::Ace, Suit::Hearts), card(Rank::Two, Suit::Spades)];

    let player_cards = vec![card(Rank::Ace, Suit::Hearts), card(Rank::Ace, Suit::Spades)];

    let dealer_hand = Hand::from_cards(dealer_cards, 10, false, false, false);

    let player_hands = vec![Hand::from_cards(player_cards, 10, false, false, false)];

    let expected_decision = PlayerDecision::Split;

    let _ = test_decision(dealer_hand, player_hands, expected_decision);

    // Eights
    let dealer_cards = vec![card(Rank::Ace, Suit::Hearts), card(Rank::Two, Suit::Spades)];

    let player_cards = vec![card(Rank::Eight, Suit::Hearts), card(Rank::Eight, Suit::Spades)];

    let dealer_hand = Hand::from_cards(dealer_cards, 10, false, false, false);

    let player_hands = vec![Hand::from_cards(player_cards, 10, false, false, false)];

    let expected_decision = PlayerDecision::Split;

    test_decision(dealer_hand, player_hands, expected_decision);
}

#[test]
fn test_double_down() {
    // Expected Behavior: Double
    // Ace & Two
    let dealer_cards = vec![card(Rank::Ace, Suit::Hearts), card(Rank::Two, Suit::Spades)];

    // Six & Five
    let player_cards = vec![card(Rank::Six, Suit::Hearts), card(Rank::Five, Suit::Spades)];

    // Assign to hands
    let dealer_hand = Hand::from_cards(dealer_cards, 10, false, false, false);

    let player_hands = vec![Hand::from_cards(player_cards, 1, false, false, false)];

    // Expected Outcome
    let expected_decision = PlayerDecision::Double;

    // Create Game
    let mut test_game = standard_game(BasicStrategy, DealerPlay, ConstantBet, HiLo, NoInsurance);

    set_hands(&mut test_game, dealer_hand, player_hands.clone());

    let state = test_game.get_state(Some(player_hands[0].clone()));

    let decision = test_game.player.decide_play(state);

    assert_eq!(decision, expected_decision);

    test_game.double_hand(0);

    let expected_num_cards = 3;
    assert_eq!(test_game.player.hands[0].cards.len(), expected_num_cards);

    let expected_hand_state = HandState::Finished;
    assert_eq!(test_game.player.hands[0].state, expected_hand_state);
    assert!(test_game.player.hands[0].doubled);
}

#[test]
fn test_many() {
    let (deck, rng) = shuffled_shoe(6, false);
    let settings =
        settings_with(deck, BasicStrategy, DealerPlay, ConstantBet, HiLo, NoInsurance, rng);

    let mut test_pool = GamePool::new(Arc::new(settings));

    assert_eq!(test_pool.simulate(10000), Ok(()));
    assert_eq!(test_pool.simulated_games, 10000);
    assert!(test_pool.results.len() >= 10000);
    assert!(test_pool.results.iter().all(|(winner, _)| *winner != Winner::Nobody));
    assert!(test_pool.results.iter().all(|(_, state)| state.hand_bet == 10));
}

// |-------------------------|
// |     Game Result Tests   |
// |-------------------------|

/// Tests all 3 states of natural blackjack outcomes
/// 1 - Player Only => Player
/// 2 - Dealer Only => Dealer
/// 3 - Both => Tie
#[test]
fn test_naturals() {
    // --- Player Natural ---
    // Ace & Six
    let dealer_cards = vec![card(Rank::Six, Suit::Hearts), card(Rank::Ace, Suit::Spades)];

    // Ace & King
    let player_cards = vec![card(Rank::Ace, Suit::Hearts), card(Rank::King, Suit::Spades)];

    let dealer_hand = Hand::from_cards(dealer_cards, 10, false, false, false);

    let player_hands = vec![Hand::from_cards(player_cards, 1, false, false, false)];

    let rng = ChaCha8Rng::seed_from_u64(2);
    let deck = MultiDeck::new(6, false);

    let settings =
        settings_with(deck, BasicStrategy, DealerPlay, ConstantBet, HiLo, NoInsurance, rng);

    let mut test_game = Game::from_settings(Arc::new(settings)).unwrap();

    set_hands(&mut test_game, dealer_hand, player_hands);

    let player_natural_outcome = test_game.play_hand().unwrap();
    let state = player_natural_outcome.first().unwrap().1.clone();
    let expected_winner = Winner::Player;
    let real_winner = player_natural_outcome.first().unwrap().0.clone();
    assert_eq!(expected_winner, real_winner);
    assert!(state.p_natural);
    assert!(!state.d_natural);

    // --- Dealer Natural ---
    test_game.reset_hands();

    // Ace & Jack
    let dealer_cards = vec![card(Rank::Jack, Suit::Hearts), card(Rank::Ace, Suit::Spades)];

    // Ace & Six
    let player_cards = vec![card(Rank::Ace, Suit::Hearts), card(Rank::Six, Suit::Spades)];

    let dealer_hand = Hand::from_cards(dealer_cards, 10, false, false, false);

    let player_hands = vec![Hand::from_cards(player_cards, 1, false, false, false)];

    set_hands(&mut test_game, dealer_hand, player_hands);
    let player_natural_outcome = test_game.play_hand().unwrap();
    let state = player_natural_outcome.first().unwrap().1.clone();
    let expected_winner = Winner::Dealer;
    let real_winner = player_natural_outcome.first().unwrap().0.clone();
    assert_eq!(expected_winner, real_winner);
    assert!(state.d_natural);
    assert!(!state.p_natural);

    // Both Naturals
    test_game.reset_hands();

    // Ace & Jack
    let dealer_cards = vec![card(Rank::Jack, Suit::Hearts), card(Rank::Ace, Suit::Spades)];

    // Ace & King
    let player_cards = vec![card(Rank::Ace, Suit::Hearts), card(Rank::King, Suit::Spades)];

    let dealer_hand = Hand::from_cards(dealer_cards, 10, false, false, false);

    let player_hands = vec![Hand::from_cards(player_cards, 1, false, false, false)];

    set_hands(&mut test_game, dealer_hand, player_hands);
    let player_natural_outcome = test_game.play_hand().unwrap();
    let state = player_natural_outcome.first().unwrap().1.clone();
    let expected_winner = Winner::Tie;
    let real_winner = player_natural_outcome.first().unwrap().0.clone();
    assert_eq!(expected_winner, real_winner);
    assert!(state.d_natural);
    assert!(state.p_natural);
}

// |-------------------------|
// |   Betting Strat Tests   |
// |-------------------------|

/// Ensures correct betting given martingale strat
#[test]
fn test_martingale() {
    let (deck, rng) = shuffled_shoe(6, false);
    let settings =
        settings_with(deck, BasicStrategy, DealerPlay, Martingale, HiLo, NoInsurance, rng);
    let settings = Arc::new(settings);
    let mut test_game = Game::from_settings(settings.clone()).unwrap();

    // Ace & King
    let dealer_cards = vec![card(Rank::Ace, Suit::Hearts), card(Rank::King, Suit::Spades)];

    // King & King
    let player_cards = vec![card(Rank::King, Suit::Hearts), card(Rank::King, Suit::Spades)];

    let dealer_hand = Hand::from_cards(dealer_cards, 10, false, false, false);
    let player_hands = vec![Hand::from_cards(player_cards, 10, false, false, false)];
    // First Game
    set_hands(&mut test_game, dealer_hand.clone(), player_hands.clone());
    assert_eq!(test_game.init_bet, settings.init_bet); // First game should bet init bet
    let outcome = test_game.play_hand().unwrap();
    assert_eq!(outcome[0].0, Winner::Dealer); // Dealer should win
    assert_eq!(test_game.last_winner, Winner::Dealer);

    // Second Game
    println!("--- SECOND GAME ---");
    assert_eq!(test_game.last_bet, settings.clone().init_bet);

    let state = test_game.get_state(Some(player_hands[0].clone()));
    let bet = settings.betting_strat.get_decision(state);

    let expected_bet = settings.init_bet * 2;
    assert_eq!(bet, expected_bet);
}

// |-------------------------|
// |  Insurance Strat Tests  |
// |-------------------------|

#[test]
fn test_no_insurance() {
    let game = standard_game(BasicStrategy, DealerPlay, ConstantBet, HiLo, NoInsurance);
    let decision = game.player.decide_insurance(game.get_state(Some(Hand::new(10))));
    let expected_decision = false;
    assert_eq!(expected_decision, decision);
}

// |-------------------------|
// |   Card Counting Tests   |
// |-------------------------|

fn counting_game<C: CountStrategy>(
    counting_strat: C,
    deck_count: u8,
) -> Game<BasicStrategy, DealerPlay, ConstantBet, C, NoInsurance> {
    let contains_blank = true;
    let mut rng = ChaCha8Rng::seed_from_u64(2);
    let mut deck = MultiDeck::new(deck_count, contains_blank);
    deck.shuffle(&mut rng);
    let settings =
        settings_with(deck, BasicStrategy, DealerPlay, ConstantBet, counting_strat, NoInsurance, rng);
    let settings = Arc::new(settings);
    Game::from_settings(settings.clone()).unwrap()
}

fn as_float(count: TrueCount) -> f64 {
    count.running_count as f64 / count.deck_count as f64
}

#[test]
fn test_hi_lo_count() {
    let deck_count = 4;
    let mut test_game = counting_game(HiLo, deck_count);

    // High Cards (-1): Ace & Ten
    let high_cards = vec![card(Rank::Ace, Suit::Hearts), card(Rank::Ten, Suit::Spades)];

    // Test Counts
    high_cards.iter().for_each(|card| test_game.update_count(card));
    let expected_running = -2;
    let expected_true = expected_running as f64 / deck_count as f64;
    assert_eq!(expected_running, test_game.running_count);
    assert_eq!(expected_true, as_float(test_game.true_count()));
    println!("TRUE: {}", as_float(test_game.true_count()));

    //Low Cards (+1): Two & Six
    let low_cards = vec![card(Rank::Two, Suit::Hearts), card(Rank::Six, Suit::Spades)];

    // Test Counts
    low_cards.iter().for_each(|card| test_game.update_count(card));
    let expected_running = 0;
    assert_eq!(expected_running, test_game.running_count);

    // Neutral Cards (+0): 7,8,9
    let neutral_cards = vec![
        card(Rank::Nine, Suit::Hearts),
        card(Rank::Eight, Suit::Spades),
        card(Rank::Seven, Suit::Spades),
    ];

    // Test Counts
    neutral_cards.iter().for_each(|card| test_game.update_count(card));
    let expected_running = 0;
    assert_eq!(expected_running, test_game.running_count);
}

#[test]
fn test_knock_out_count() {
    let deck_count = 4;
    let mut test_game = counting_game(KnockOut, deck_count);

    // High Cards (-1): 10..=Ace
    let high_cards = vec![
        card(Rank::Ace, Suit::Hearts),
        card(Rank::King, Suit::Spades),
        card(Rank::Queen, Suit::Spades),
        card(Rank::Jack, Suit::Spades),
        card(Rank::Ten, Suit::Spades),
    ];

    // Test Counts
    high_cards.iter().for_each(|card| test_game.update_count(card));
    let expected_running = -(high_cards.len() as i32);
    let expected_true = expected_running as f64 / deck_count as f64;
    assert_eq!(expected_running, test_game.running_count);
    assert_eq!(expected_true, as_float(test_game.true_count()));

    //Low Cards (+1): 2..=7
    let low_cards = vec![
        card(Rank::Two, Suit::Spades),
        card(Rank::Three, Suit::Spades),
        card(Rank::Four, Suit::Spades),
        card(Rank::Five, Suit::Spades),
        card(Rank::Six, Suit::Spades),
        card(Rank::Seven, Suit::Spades),
    ];

    // Test Counts
    low_cards.iter().for_each(|card| test_game.update_count(card));
    let expected_running = expected_running + low_cards.len() as i32;
    assert_eq!(expected_running, test_game.running_count);

    // Neutral Cards (+0): 8,9
    let neutral_cards = vec![card(Rank::Nine, Suit::Hearts), card(Rank::Eight, Suit::Spades)];

    // Test Counts
    neutral_cards.iter().for_each(|card| test_game.update_count(card));
    // Running count shouldn't change b/c neutral cards
    assert_eq!(expected_running, test_game.running_count);
}

#[test]
fn test_omega2_count() {
    let deck_count = 4;
    let mut test_game = counting_game(OmegaTwo, deck_count);

    // Very High Cards (-2): 10..=King
    let multiplier = -2;
    let minus_two_cards = vec![
        card(Rank::King, Suit::Spades),
        card(Rank::Queen, Suit::Spades),
        card(Rank::Jack, Suit::Spades),
        card(Rank::Ten, Suit::Spades),
    ];

    // Test Counts
    minus_two_cards.iter().for_each(|card| test_game.update_count(card));
    let expected_running = multiplier * minus_two_cards.len() as i32;
    let expected_true = expected_running as f64 / deck_count as f64;
    assert_eq!(expected_running, test_game.running_count);
    assert_eq!(expected_true, as_float(test_game.true_count()));

    // High Card (-1): 9
    let multiplier = -1;
    let minus_one_cards = vec![card(Rank::Nine, Suit::Spades)];

    // Test Counts
    minus_one_cards.iter().for_each(|card| test_game.update_count(card));
    let expected_running = expected_running + (multiplier * minus_one_cards.len() as i32);
    let expected_true = expected_running as f64 / deck_count as f64;
    assert_eq!(expected_running, test_game.running_count);
    assert_eq!(expected_true, as_float(test_game.true_count()));

    // Neutral Cards (+0): 8, Ace
    let _multiplier = 0;
    let neutral_cards = vec![card(Rank::Ace, Suit::Hearts), card(Rank::Eight, Suit::Spades)];

    // Test Counts
    neutral_cards.iter().for_each(|card| test_game.update_count(card));
    // Running/True count shouldn't change b/c neutral cards
    assert_eq!(expected_running, test_game.running_count);
    assert_eq!(expected_true, as_float(test_game.true_count()));

    //Low Cards (+1): 2,3, 7
    let multiplier = 1;
    let plus_one_cards = vec![
        card(Rank::Two, Suit::Spades),
        card(Rank::Three, Suit::Spades),
        card(Rank::Seven, Suit::Spades),
    ];

    // Test Counts
    plus_one_cards.iter().for_each(|card| test_game.update_count(card));
    let expected_running = expected_running + (multiplier * plus_one_cards.len() as i32);
    let expected_true = expected_running as f64 / deck_count as f64;
    assert_eq!(expected_running, test_game.running_count);
    assert_eq!(expected_true, as_float(test_game.true_count()));

    // +2 : 4, 5, 6
    let multiplier = 2;
    let plus_two_cards = vec![
        card(Rank::Four, Suit::Spades),
        card(Rank::Five, Suit::Spades),
        card(Rank::Six, Suit::Spades),
    ];

    // Test Counts
    plus_two_cards.iter().for_each(|card| test_game.update_count(card));
    let expected_running = expected_running + (multiplier * plus_two_cards.len() as i32);
    let expected_true = expected_running as f64 / deck_count as f64;
    assert_eq!(expected_running, test_game.running_count);
    assert_eq!(expected_true, as_float(test_game.true_count()));
}

// Construction

#[test]
fn no_game_without_decks() {
    let rng = ChaCha8Rng::seed_from_u64(2);
    let settings = settings_with(
        MultiDeck::new(0, false),
        BasicStrategy,
        DealerPlay,
        ConstantBet,
        HiLo,
        NoInsurance,
        rng,
    );
    assert_eq!(Game::from_settings(Arc::new(settings)).err(), Some(ConfigError::NoDecks));
}

#[test]
fn no_game_with_blank_in_a_single_deck() {
    let rng = ChaCha8Rng::seed_from_u64(2);
    let settings = settings_with(
        MultiDeck::new(1, true),
        BasicStrategy,
        DealerPlay,
        ConstantBet,
        HiLo,
        NoInsurance,
        rng,
    );
    assert_eq!(
        Game::from_settings(Arc::new(settings)).err(),
        Some(ConfigError::BlankNeedsTwoDecks)
    );
}

#[test]
fn no_game_with_an_overfull_shoe() {
    let rng = ChaCha8Rng::seed_from_u64(2);
    let mut deck = MultiDeck::new(2, false);
    deck.decks.cards.push(card(Rank::Two, Suit::Hearts));
    let settings =
        settings_with(deck, BasicStrategy, DealerPlay, ConstantBet, HiLo, NoInsurance, rng);
    assert_eq!(Game::from_settings(Arc::new(settings)).err(), Some(ConfigError::ShoeOverfull));
}

#[test]
fn no_game_with_a_blank_at_the_bottom() {
    let rng = ChaCha8Rng::seed_from_u64(2);
    let mut deck = MultiDeck::new(2, true);
    deck.decks.cards.insert(0, Card::from_rank(Rank::Blank));
    let settings =
        settings_with(deck, BasicStrategy, DealerPlay, ConstantBet, HiLo, NoInsurance, rng);
    assert_eq!(Game::from_settings(Arc::new(settings)).err(), Some(ConfigError::BlankUncovered));

    let rng = ChaCha8Rng::seed_from_u64(2);
    let mut deck = MultiDeck::new(2, true);
    deck.decks.cards.truncate(50);
    deck.decks.cards.push(Card::from_rank(Rank::Blank));
    deck.decks.cards.push(Card::from_rank(Rank::Blank));
    let settings =
        settings_with(deck, BasicStrategy, DealerPlay, ConstantBet, HiLo, NoInsurance, rng);
    assert_eq!(Game::from_settings(Arc::new(settings)).err(), Some(ConfigError::BlankUncovered));
}

#[test]
fn no_game_with_a_stake_over_the_limit() {
    let (deck, rng) = shuffled_shoe(6, false);
    let mut settings =
        settings_with(deck, BasicStrategy, DealerPlay, ConstantBet, HiLo, NoInsurance, rng);
    settings.init_bet = MAX_BET + 1;
    assert_eq!(Game::from_settings(Arc::new(settings)).err(), Some(ConfigError::BetOverLimit));

    let (deck, rng) = shuffled_shoe(6, false);
    let mut settings =
        settings_with(deck, BasicStrategy, DealerPlay, ConstantBet, HiLo, NoInsurance, rng);
    settings.init_bet = MAX_BET;
    assert!(Game::from_settings(Arc::new(settings)).is_ok());
}

#[test]
fn game_from_settings_takes_the_settings_over() {
    let (deck, rng) = shuffled_shoe(6, false);
    let shoe = deck.decks.cards.clone();
    let mut settings =
        settings_with(deck, BasicStrategy, DealerPlay, ConstantBet, HiLo, NoInsurance, rng);
    settings.max_splits = 2;
    settings.dealer_cutoff = 18;
    settings.allow_late_surrender = true;
    let game = Game::from_settings(Arc::new(settings)).unwrap();
    assert_eq!(game.deck.decks.cards, shoe);
    assert_eq!(game.max_splits, 2);
    assert_eq!(game.dealer.cutoff, 18);
    assert_eq!(game.init_bet, 10);
    assert_eq!(game.last_bet, 0);
    assert_eq!(game.last_winner, Winner::Nobody);
    assert_eq!(game.running_count, 0);
    assert!(!game.allow_early_surrender);
    assert!(game.allow_late_surrender);
}

#[test]
fn new_game_keeps_player_and_dealer() {
    let (deck, rng) = shuffled_shoe(6, false);
    let player = Player::new(25, NaiveSoft, ConstantBet, KnockOut, NoInsurance);
    let mut dealer = Dealer::new(17, DealerPlay);
    dealer.set_cutoff(16);
    assert!(dealer.hand.is_none());
    let game = Game::new(deck, 3, 25, dealer, player, rng, true, false).unwrap();
    assert_eq!(game.player.hands.len(), 1);
    assert_eq!(game.player.hands[0], Hand::new(25));
    assert_eq!(game.dealer.cutoff, 16);
    assert!(game.allow_early_surrender);
    assert!(!game.player.is_finished());
}

// Snapshots

#[test]
fn state_shows_the_game() {
    let mut game = basic_game();
    let dealer = hand_of(vec![card(Rank::Five, Suit::Clubs), card(Rank::King, Suit::Hearts)], 10);
    let player = hand_of(vec![card(Rank::Nine, Suit::Clubs), card(Rank::Two, Suit::Hearts)], 10);
    set_hands(&mut game, dealer.clone(), vec![player.clone()]);
    game.update_count(&card(Rank::Two, Suit::Hearts));
    let state = game.get_state(Some(player.clone()));
    assert_eq!(state.init_bet, 10);
    assert_eq!(state.last_bet, 0);
    assert!(state.played_cards.is_empty());
    assert_eq!(state.dealer_upcard, Some(card(Rank::Five, Suit::Clubs)));
    assert_eq!(state.dealer_upcard_str, Some(DealerUpcardStrength::Poor));
    assert_eq!(state.player_hand, Some(player));
    assert_eq!(state.dealer_hand, Some(dealer));
    assert_eq!(state.dealer_cutoff, 17);
    assert!(!state.contains_blank);
    assert_eq!(state.last_winner, Winner::Nobody);
    assert_eq!(state.running_count, 1);
    assert_eq!(state.true_count, TrueCount { running_count: 1, deck_count: 6 });
    assert_eq!(game.get_dealer_upcard_str(), Some(DealerUpcardStrength::Poor));
}

#[test]
fn state_without_dealer_hand_has_no_upcard() {
    let game = basic_game();
    assert_eq!(game.get_dealer_upcard(), None);
    assert_eq!(game.get_dealer_upcard_str(), None);
    let state = game.get_state(None);
    assert_eq!(state.dealer_upcard, None);
    assert_eq!(state.dealer_upcard_str, None);
    assert!(state.player_hand.is_none());
    assert!(state.dealer_hand.is_none());
}

#[test]
fn new_state_has_no_last_bet() {
    let state = GameState::new(
        15,
        vec![card(Rank::Two, Suit::Hearts)],
        None,
        None,
        None,
        None,
        17,
        true,
        Winner::Tie,
        -3,
        TrueCount { running_count: -3, deck_count: 6 },
        true,
        false,
    );
    assert_eq!(state.init_bet, 15);
    assert_eq!(state.last_bet, 0);
    assert_eq!(state.played_cards.len(), 1);
    assert_eq!(state.last_winner, Winner::Tie);
    assert_eq!(state.running_count, -3);
    assert!(state.contains_blank);
    assert!(state.allow_early_surrender);
    assert!(!state.allow_late_surrender);
}

// Drawing

#[test]
fn draw_records_and_counts_the_top_card() {
    let mut game = basic_game();
    let top = *game.deck.decks.cards.last().unwrap();
    let below = game.deck.decks.cards[game.deck.decks.cards.len() - 2];
    let drawn = game.draw();
    assert_eq!(drawn, top);
    assert_eq!(game.played_cards, vec![top]);
    assert_eq!(game.deck.decks.cards.len(), 311);
    assert_eq!(game.running_count, HiLo.get_decision(top) as i32);
    let second = game.draw();
    assert_eq!(second, below);
    assert_eq!(game.played_cards, vec![top, below]);
    assert_eq!(
        game.running_count,
        HiLo.get_decision(top) as i32 + HiLo.get_decision(below) as i32
    );
}

#[test]
fn draw_puts_the_blank_aside() {
    let rng = ChaCha8Rng::seed_from_u64(2);
    let mut deck = MultiDeck::new(2, true);
    let under = *deck.decks.cards.last().unwrap();
    deck.decks.cards.push(Card::from_rank(Rank::Blank));
    let settings =
        settings_with(deck, BasicStrategy, DealerPlay, ConstantBet, HiLo, NoInsurance, rng);
    let mut game = Game::from_settings(Arc::new(settings)).unwrap();
    let drawn = game.draw();
    assert_eq!(drawn, under);
    assert_eq!(game.played_cards, vec![under]);
    assert_eq!(game.deck.decks.cards.len(), 103);
    assert_eq!(game.running_count, -1);
}

#[test]
fn draw_rebuilds_an_empty_shoe() {
    for contains_blank in [false, true] {
        let rng = ChaCha8Rng::seed_from_u64(5);
        let mut deck = MultiDeck::new(2, contains_blank);
        deck.decks.cards.truncate(2);
        let settings =
            settings_with(deck, BasicStrategy, DealerPlay, ConstantBet, HiLo, NoInsurance, rng);
        let mut game = Game::from_settings(Arc::new(settings)).unwrap();
        game.draw();
        game.draw();
        assert_eq!(game.played_cards.len(), 2);
        assert_eq!(game.running_count, 0);
        assert!(game.deck.decks.cards.is_empty());

        let drawn = game.draw();
        let full = 104 + if contains_blank { 1 } else { 0 };
        assert!(!drawn.is_blank());
        assert_eq!(game.deck.decks.cards.len(), full - 1);
        assert_eq!(game.played_cards, vec![drawn]);
        assert_eq!(game.running_count, HiLo.get_decision(drawn) as i32);
        assert_eq!(
            game.deck.decks.cards.iter().filter(|card| card.is_blank()).count(),
            if contains_blank { 1 } else { 0 }
        );
        assert_ne!(game.deck.decks.cards[..20], MultiDeck::new(2, false).decks.cards[..20]);
    }
}

#[test]
fn new_deck_is_full_and_clears_the_history() {
    for (decks, contains_blank) in [(1u8, false), (2, true), (6, false), (6, true)] {
        let rng = ChaCha8Rng::seed_from_u64(3);
        let deck = MultiDeck::new(decks, contains_blank);
        let player = Player::new(10, BasicStrategy, ConstantBet, HiLo, NoInsurance);
        let dealer = Dealer::new(17, DealerPlay);
        let mut game = Game::new(deck, 3, 10, dealer, player, rng, false, false).unwrap();
        game.draw();
        game.draw();
        game.new_deck();
        let full = 52 * decks as usize + if contains_blank { 1 } else { 0 };
        assert_eq!(game.deck.decks.cards.len(), full);
        assert!(game.played_cards.is_empty());
        assert_eq!(game.player.hands.len(), 1);
        let blanks: Vec<usize> = game
            .deck
            .decks
            .cards
            .iter()
            .enumerate()
            .filter(|(_, card)| card.is_blank())
            .map(|(i, _)| i)
            .collect();
        if contains_blank {
            assert_eq!(blanks.len(), 1);
            assert!(59 <= blanks[0] && blanks[0] < 70);
        } else {
            assert!(blanks.is_empty());
        }
    }
}

#[test]
fn a_whole_shoe_is_drawn_without_the_blank() {
    let rng = ChaCha8Rng::seed_from_u64(9);
    let deck = MultiDeck::new(2, true);
    let settings =
        settings_with(deck, BasicStrategy, DealerPlay, ConstantBet, HiLo, NoInsurance, rng);
    let mut game = Game::from_settings(Arc::new(settings)).unwrap();
    for _ in 0..500 {
        assert!(!game.draw().is_blank());
    }
    assert!(game.played_cards.iter().all(|card| !card.is_blank()));
}

// Moves

#[test]
fn deal_is_idempotent_on_dealt_hands() {
    let mut game = basic_game();
    game.deal(10);
    let hands = game.player.hands.clone();
    let dealer = game.dealer.hand.clone();
    let played = game.played_cards.len();
    assert_eq!(played, 4);
    game.deal(10);
    assert_eq!(game.player.hands, hands);
    assert_eq!(game.dealer.hand, dealer);
    assert_eq!(game.played_cards.len(), played);
}

#[test]
fn deal_fills_hands_in_order() {
    let mut game = basic_game();
    let shoe = game.deck.decks.cards.clone();
    let top = |n: usize| shoe[shoe.len() - n];
    game.set_player_hands(vec![
        hand_of(vec![card(Rank::Two, Suit::Hearts)], 5),
        hand_of(
            vec![
                card(Rank::Two, Suit::Hearts),
                card(Rank::Two, Suit::Clubs),
                card(Rank::Two, Suit::Spades),
            ],
            5,
        ),
        Hand::new(5),
    ]);
    game.deal(20);
    assert_eq!(game.player.hands.len(), 3);
    assert_eq!(game.player.hands[0].cards, vec![card(Rank::Two, Suit::Hearts), top(1)]);
    assert_eq!(game.player.hands[1].cards.len(), 3);
    assert_eq!(game.player.hands[2].cards, vec![top(2), top(3)]);
    assert!(game.player.hands.iter().all(|hand| hand.state == HandState::Playing));
    assert!(game.player.hands.iter().all(|hand| hand.init_bet == 5));
    let dealer = game.dealer.hand.clone().unwrap();
    assert_eq!(dealer.cards, vec![top(4), top(5)]);
    assert_eq!(dealer.state, HandState::Playing);
    assert_eq!(dealer.init_bet, 20);
    assert_eq!(game.played_cards, vec![top(1), top(2), top(3), top(4), top(5)]);
}

#[test]
fn deal_gives_the_player_a_hand_at_the_stake() {
    let mut game = basic_game();
    game.deal(35);
    assert_eq!(game.player.hands.len(), 1);
    assert_eq!(game.player.hands[0].init_bet, 35);
    assert_eq!(game.dealer.hand.as_ref().unwrap().init_bet, 35);
    game.deal(40);
    assert_eq!(game.player.hands[0].init_bet, 35);
    assert_eq!(game.dealer.hand.as_ref().unwrap().init_bet, 40);
}

#[test]
fn reset_hands_clears_the_table_only() {
    let mut game = basic_game();
    game.deal(10);
    let shoe = game.deck.decks.cards.clone();
    game.reset_hands();
    assert!(game.player.hands.is_empty());
    assert!(game.dealer.hand.is_none());
    assert_eq!(game.deck.decks.cards, shoe);
    assert_eq!(game.played_cards.len(), 4);
}

#[test]
fn hit_adds_the_top_card() {
    let mut game = basic_game();
    let top = *game.deck.decks.cards.last().unwrap();
    let two = card(Rank::Two, Suit::Hearts);
    set_hands(&mut game, hand_of(vec![two, two], 10), vec![hand_of(vec![two, two], 10)]);
    game.hit_player(0);
    assert_eq!(game.player.hands[0].cards, vec![two, two, top]);
    assert_eq!(game.player.hands[0].state, HandState::Playing);
    let next = *game.deck.decks.cards.last().unwrap();
    game.hit_dealer();
    assert_eq!(game.dealer.hand.as_ref().unwrap().cards, vec![two, two, next]);
}

fn game_with_top_cards(
    top_first: Vec<Card>,
) -> Game<BasicStrategy, DealerPlay, ConstantBet, HiLo, NoInsurance> {
    let rng = ChaCha8Rng::seed_from_u64(2);
    let mut deck = MultiDeck::new(6, false);
    deck.decks.cards.truncate(300);
    for card in top_first.into_iter().rev() {
        deck.decks.cards.push(card);
    }
    let settings =
        settings_with(deck, BasicStrategy, DealerPlay, ConstantBet, HiLo, NoInsurance, rng);
    Game::from_settings(Arc::new(settings)).unwrap()
}

#[test]
fn hit_over_21_deflates_the_soft_ace() {
    let mut game = game_with_top_cards(vec![
        card(Rank::King, Suit::Clubs),
        card(Rank::Nine, Suit::Clubs),
    ]);
    let soft = hand_of(vec![card(Rank::Ace, Suit::Hearts), card(Rank::Six, Suit::Spades)], 10);
    set_hands(&mut game, soft.clone(), vec![soft]);
    game.hit_player(0);
    let hand = &game.player.hands[0];
    assert_eq!(hand.cards.len(), 3);
    assert!(!hand.contains_soft_ace());
    assert_eq!(hand.value(), 17);
    game.hit_dealer();
    let dealer = game.dealer.hand.as_ref().unwrap();
    assert!(!dealer.contains_soft_ace());
    assert_eq!(dealer.value(), 16);
}

#[test]
fn hit_within_21_keeps_the_soft_ace() {
    let mut game = game_with_top_cards(vec![card(Rank::Three, Suit::Clubs)]);
    let soft = hand_of(vec![card(Rank::Ace, Suit::Hearts), card(Rank::Six, Suit::Spades)], 10);
    set_hands(&mut game, soft.clone(), vec![soft]);
    game.hit_player(0);
    let hand = &game.player.hands[0];
    assert!(hand.contains_soft_ace());
    assert_eq!(hand.value(), 20);
}

#[test]
fn hit_over_21_without_soft_ace_stays_over() {
    let mut game = game_with_top_cards(vec![card(Rank::King, Suit::Clubs)]);
    let hard = hand_of(vec![card(Rank::Ten, Suit::Hearts), card(Rank::Six, Suit::Spades)], 10);
    set_hands(&mut game, hard.clone(), vec![hard]);
    game.hit_player(0);
    let hand = &game.player.hands[0];
    assert_eq!(hand.value(), 26);
    assert_eq!(hand.state, HandState::Playing);
}

#[test]
fn split_makes_two_children_at_the_end() {
    let mut game = game_with_top_cards(vec![
        card(Rank::Three, Suit::Clubs),
        card(Rank::Nine, Suit::Diamonds),
    ]);
    let eight_h = card(Rank::Eight, Suit::Hearts);
    let eight_s = card(Rank::Eight, Suit::Spades);
    let other = hand_of(vec![card(Rank::Ten, Suit::Hearts), card(Rank::Six, Suit::Spades)], 10);
    game.set_player_hands(vec![hand_of(vec![eight_h, eight_s], 15), other.clone()]);
    game.set_dealer_hand(other.clone());
    game.split_hand(0);
    assert_eq!(game.player.hands.len(), 3);
    assert_eq!(game.player.hands[0], other);
    let first = &game.player.hands[1];
    let second = &game.player.hands[2];
    assert_eq!(first.cards, vec![eight_s, card(Rank::Three, Suit::Clubs)]);
    assert_eq!(second.cards, vec![eight_h, card(Rank::Nine, Suit::Diamonds)]);
    for child in [first, second] {
        assert!(child.split_child);
        assert!(!child.doubled);
        assert!(!child.natural);
        assert_eq!(child.init_bet, 15);
        assert_eq!(child.state, HandState::Playing);
    }
    assert_eq!(game.played_cards.len(), 2);
}

#[test]
fn double_takes_one_card_and_finishes() {
    let mut game = game_with_top_cards(vec![card(Rank::Ace, Suit::Clubs)]);
    let hand = hand_of(
        vec![
            card(Rank::Two, Suit::Hearts),
            card(Rank::Three, Suit::Spades),
            card(Rank::Six, Suit::Spades),
        ],
        10,
    );
    set_hands(&mut game, hand.clone(), vec![hand]);
    game.double_hand(0);
    let doubled = &game.player.hands[0];
    assert_eq!(doubled.cards.len(), 4);
    assert!(doubled.doubled);
    assert_eq!(doubled.state, HandState::Finished);
    assert_eq!(doubled.value(), 22);
    assert!(doubled.contains_soft_ace());
}

#[test]
fn stand_surrender_and_natural_touch_one_hand() {
    let mut game = basic_game();
    let hand = hand_of(vec![card(Rank::Ten, Suit::Hearts), card(Rank::Six, Suit::Spades)], 10);
    game.set_player_hands(vec![hand.clone(), hand.clone(), hand.clone(), hand.clone()]);
    game.stand_player(0);
    game.surrender(1, HandState::EarlySurrender);
    game.surrender(2, HandState::LateSurrender);
    game.player_natural(3);
    assert_eq!(game.player.hands[0].state, HandState::Finished);
    assert_eq!(game.player.hands[1].state, HandState::EarlySurrender);
    assert_eq!(game.player.hands[2].state, HandState::LateSurrender);
    assert_eq!(game.player.hands[3].state, HandState::Playing);
    assert!(game.player.hands[3].natural);
    assert!(!game.player.hands[0].natural);
    assert!(!game.player.is_finished());
    game.stand_player(3);
    assert!(game.player.is_finished());
    assert!(game.played_cards.is_empty());
}

#[test]
fn natural_is_two_cards_of_21_not_from_a_split() {
    let game = basic_game();
    let ace = card(Rank::Ace, Suit::Hearts);
    let king = card(Rank::King, Suit::Hearts);
    assert!(game.natural_check(&hand_of(vec![ace, king], 10)));
    assert!(!game.natural_check(&Hand::from_cards(vec![ace, king], 10, false, false, true)));
    assert!(!game.natural_check(&hand_of(vec![king, king], 10)));
    assert!(!game.natural_check(&hand_of(
        vec![card(Rank::Seven, Suit::Hearts), card(Rank::Seven, Suit::Clubs), card(Rank::Seven, Suit::Spades)],
        10
    )));
    assert!(!game.natural_check(&Hand::new(10)));
}

#[test]
fn apply_decision_rejects_moves_that_cannot_be_made() {
    let mut game = basic_game();
    let ten = card(Rank::Ten, Suit::Hearts);
    let six = card(Rank::Six, Suit::Spades);
    let dealer = hand_of(vec![ten, six], 10);
    set_hands(&mut game, dealer.clone(), vec![hand_of(vec![ten, six], 10)]);
    assert_eq!(game.apply_decision(0, PlayerDecision::Split), Err(GameError::InvalidSplit));
    assert_eq!(game.player.hands, vec![hand_of(vec![ten, six], 10)]);

    game.set_player_hands(vec![hand_of(vec![ten, ten, ten], 10)]);
    assert_eq!(game.apply_decision(0, PlayerDecision::Split), Err(GameError::InvalidSplit));

    let mut full = Vec::new();
    for _ in 0..25 {
        full.push(ten);
    }
    game.set_player_hands(vec![hand_of(full, 10)]);
    assert_eq!(game.apply_decision(0, PlayerDecision::Hit), Err(GameError::HandFull));
    assert_eq!(game.apply_decision(0, PlayerDecision::Double), Err(GameError::HandFull));
    assert_eq!(game.player.hands[0].cards.len(), 25);
    assert!(game.played_cards.is_empty());

    let mut hands = Vec::new();
    for _ in 0..255 {
        hands.push(hand_of(vec![ten, ten], 10));
    }
    game.set_player_hands(hands);
    assert_eq!(game.apply_decision(3, PlayerDecision::Split), Err(GameError::TooManyHands));
    assert_eq!(game.player.hands.len(), 255);
}

#[test]
fn apply_decision_makes_the_move() {
    let mut game = basic_game();
    let eight = card(Rank::Eight, Suit::Hearts);
    let dealer = hand_of(vec![eight, eight], 10);
    set_hands(&mut game, dealer, vec![hand_of(vec![eight, eight], 10)]);
    assert_eq!(game.apply_decision(0, PlayerDecision::Split), Ok(true));
    assert_eq!(game.player.hands.len(), 2);
    assert_eq!(game.apply_decision(0, PlayerDecision::Hit), Ok(false));
    assert_eq!(game.player.hands[0].cards.len(), 3);
    assert_eq!(game.apply_decision(0, PlayerDecision::Stand), Ok(false));
    assert_eq!(game.player.hands[0].state, HandState::Finished);
    assert_eq!(game.apply_decision(1, PlayerDecision::Double), Ok(false));
    assert_eq!(game.player.hands[1].cards.len(), 3);
    assert!(game.player.hands[1].doubled);
    assert!(game.player.is_finished());
    game.set_player_hands(vec![hand_of(vec![eight, eight], 10), hand_of(vec![eight, eight], 10)]);
    assert_eq!(game.apply_decision(0, PlayerDecision::EarlySurrender), Ok(false));
    assert_eq!(game.apply_decision(1, PlayerDecision::LateSurrender), Ok(false));
    assert_eq!(game.player.hands[0].state, HandState::EarlySurrender);
    assert_eq!(game.player.hands[1].state, HandState::LateSurrender);
}

#[test]
fn handle_player_hand_leaves_a_finished_hand_alone() {
    let mut game = basic_game();
    let ten = card(Rank::Ten, Suit::Hearts);
    let mut hand = hand_of(vec![ten, ten], 10);
    hand.set_state(HandState::Finished);
    set_hands(&mut game, hand_of(vec![ten, ten], 10), vec![hand.clone()]);
    assert_eq!(game.handle_player_hand(0), Ok(false));
    assert_eq!(game.player.hands, vec![hand]);
    assert!(game.played_cards.is_empty());
}

#[test]
fn handle_player_hand_marks_a_natural_and_stands() {
    let mut game = basic_game();
    let ace = card(Rank::Ace, Suit::Hearts);
    let king = card(Rank::King, Suit::Hearts);
    set_hands(&mut game, hand_of(vec![ace, king], 10), vec![hand_of(vec![ace, king], 10)]);
    assert_eq!(game.handle_player_hand(0), Ok(false));
    assert!(game.player.hands[0].natural);
    assert_eq!(game.player.hands[0].state, HandState::Finished);
    assert_eq!(game.player.hands[0].cards.len(), 2);
}

// Rounds that are given up

#[test]
fn round_is_given_up_when_a_hand_is_full() {
    let (deck, rng) = shuffled_shoe(6, false);
    let mut settings =
        settings_with(deck, MimicDealer, DealerPlay, ConstantBet, HiLo, NoInsurance, rng);
    settings.dealer_cutoff = 255;
    let mut game = Game::from_settings(Arc::new(settings)).unwrap();
    game.deal(10);
    assert_eq!(game.play_hand(), Err(GameError::HandFull));
    assert!(game.player.hands[0].value() > 244);
    assert_eq!(game.dealer.hand.as_ref().unwrap().cards.len(), 2);

    let (deck, rng) = shuffled_shoe(6, false);
    let mut settings =
        settings_with(deck, CutoffOnly, DealerPlay, ConstantBet, HiLo, NoInsurance, rng);
    settings.dealer_cutoff = 255;
    let mut game = Game::from_settings(Arc::new(settings)).unwrap();
    game.deal(10);
    assert_eq!(game.play_hand(), Err(GameError::HandFull));
    assert!(game.player.is_finished());
    assert!(game.dealer.hand.as_ref().unwrap().value() > 244);
}

#[test]
fn round_is_given_up_when_the_dealer_does_not_hit_or_stand() {
    let eight = card(Rank::Eight, Suit::Hearts);
    let ten = card(Rank::Ten, Suit::Hearts);
    let mut game = standard_game(NaiveSoft, BasicStrategy, ConstantBet, HiLo, NoInsurance);
    set_hands(&mut game, hand_of(vec![eight, eight], 10), vec![hand_of(vec![ten, ten], 10)]);
    assert_eq!(game.play_hand(), Err(GameError::DealerDecision));
    assert_eq!(game.dealer.hand.as_ref().unwrap().cards.len(), 2);

    let mut game = standard_game(NaiveSoft, DoubleOnly, ConstantBet, HiLo, NoInsurance);
    set_hands(
        &mut game,
        hand_of(vec![card(Rank::Six, Suit::Hearts), card(Rank::Five, Suit::Hearts)], 10),
        vec![hand_of(vec![ten, ten], 10)],
    );
    assert_eq!(game.play_hand(), Err(GameError::DealerDecision));
}

#[test]
fn round_is_given_up_on_a_stake_over_the_limit() {
    let mut game = basic_game();
    game.deal(MAX_BET + 1);
    let hands = game.player.hands.clone();
    assert_eq!(game.play_hand(), Err(GameError::BetOverLimit));
    assert_eq!(game.player.hands, hands);
    assert_eq!(game.last_bet, 0);

    let (deck, rng) = shuffled_shoe(6, false);
    let mut settings =
        settings_with(deck, BasicStrategy, DealerPlay, Martingale, HiLo, NoInsurance, rng);
    settings.init_bet = MAX_BET;
    let settings = Arc::new(settings);
    let mut game = Game::from_settings(settings.clone()).unwrap();
    game.last_bet = MAX_BET;
    game.last_winner = Winner::Dealer;
    let mut pool = GamePool::new(settings);
    assert_eq!(pool.play_round(&mut game), Err(GameError::BetOverLimit));
    assert!(game.player.hands.is_empty());
    assert!(game.played_cards.is_empty());
    assert!(pool.results.is_empty());
}

#[test]
fn surrendered_hand_loses_and_takes_no_card() {
    for (state, early) in [(HandState::EarlySurrender, true), (HandState::LateSurrender, false)] {
        let mut game = basic_game();
        let ten = card(Rank::Ten, Suit::Hearts);
        set_hands(
            &mut game,
            hand_of(vec![ten, card(Rank::Seven, Suit::Hearts)], 10),
            vec![hand_of(vec![ten, ten], 10)],
        );
        game.surrender(0, state);
        let results = game.play_hand().unwrap();
        assert_eq!(results.len(), 1);
        assert_eq!(results[0].0, Winner::Dealer);
        assert_eq!(results[0].1.p_surrender_early, early);
        assert_eq!(results[0].1.p_surrender_late, !early);
        assert_eq!(game.player.hands[0].cards.len(), 2);
        assert!(game.played_cards.is_empty());
        assert_eq!(game.last_winner, Winner::Dealer);
    }
}

// The round

#[test]
fn split_round_plays_both_children() {
    let mut game = game_with_top_cards(vec![
        card(Rank::Ten, Suit::Clubs),
        card(Rank::Nine, Suit::Clubs),
    ]);
    let eight = card(Rank::Eight, Suit::Hearts);
    set_hands(
        &mut game,
        hand_of(vec![card(Rank::Ten, Suit::Hearts), card(Rank::Seven, Suit::Hearts)], 10),
        vec![hand_of(vec![eight, eight], 10)],
    );
    let results = game.play_hand().unwrap();
    assert_eq!(results.len(), 2);
    assert_eq!(game.player.hands.len(), 2);
    assert!(game.player.hands.iter().all(|hand| hand.split_child && hand.is_finished()));
    assert_eq!(game.player.hands[0].value(), 18);
    assert_eq!(game.player.hands[1].value(), 17);
    assert_eq!(results[0].0, Winner::Player);
    assert_eq!(results[1].0, Winner::Tie);
    assert_eq!(game.last_winner, Winner::Player);
    assert_eq!(game.last_bet, 10);
    assert!(results.iter().all(|(_, state)| state.hand_bet == 10 && !state.p_natural));
}

#[test]
fn player_over_21_loses_whatever_the_dealer_draws() {
    let mut game = game_with_top_cards(vec![
        card(Rank::King, Suit::Clubs),
        card(Rank::King, Suit::Diamonds),
    ]);
    set_hands(
        &mut game,
        hand_of(vec![card(Rank::Ten, Suit::Hearts), card(Rank::Six, Suit::Hearts)], 10),
        vec![hand_of(vec![card(Rank::Ten, Suit::Clubs), card(Rank::Two, Suit::Hearts)], 10)],
    );
    let results = game.play_hand().unwrap();
    assert_eq!(game.player.hands[0].value(), 22);
    assert_eq!(game.dealer.hand.as_ref().unwrap().value(), 26);
    assert_eq!(results[0].0, Winner::Dealer);
    assert!(results[0].1.p_bust);
    assert!(results[0].1.d_bust);
}

#[test]
fn round_with_no_player_hand_has_no_winner() {
    let mut game = basic_game();
    game.set_dealer_hand(hand_of(
        vec![card(Rank::Ten, Suit::Hearts), card(Rank::Seven, Suit::Hearts)],
        10,
    ));
    let results = game.play_hand().unwrap();
    assert!(results.is_empty());
    assert_eq!(game.last_winner, Winner::Nobody);
}

// Resolution

fn outcome(player: &Hand, dealer: &Hand) -> Winner {
    resolve_hand(player, dealer, 10).0
}

#[test]
fn resolution_goes_by_precedence() {
    let ten = card(Rank::Ten, Suit::Hearts);
    let ace = card(Rank::Ace, Suit::Hearts);
    let two = card(Rank::Two, Suit::Hearts);
    let eight = card(Rank::Eight, Suit::Hearts);
    let twenty = hand_of(vec![ten, ten], 10);
    let eighteen = hand_of(vec![ten, eight], 10);
    let over = hand_of(vec![ten, ten, two], 10);
    let natural = Hand::from_cards(vec![ace, ten], 10, false, true, false);

    // Dealer natural against 20.
    assert_eq!(outcome(&twenty, &natural), Winner::Dealer);
    // Both natural.
    assert_eq!(outcome(&natural, &natural), Winner::Tie);
    // Player over 21 against 18, and against a dealer over 21.
    assert_eq!(outcome(&over, &eighteen), Winner::Dealer);
    assert_eq!(outcome(&over, &over), Winner::Dealer);
    // Dealer over 21.
    assert_eq!(outcome(&eighteen, &over), Winner::Player);
    // Totals.
    assert_eq!(outcome(&eighteen, &eighteen), Winner::Tie);
    assert_eq!(outcome(&twenty, &eighteen), Winner::Player);
    assert_eq!(outcome(&eighteen, &twenty), Winner::Dealer);
    // A hand given up loses, even a natural against a natural.
    let mut given_up = natural.clone();
    given_up.set_state(HandState::LateSurrender);
    assert_eq!(outcome(&given_up, &natural), Winner::Dealer);
    let mut given_up = twenty.clone();
    given_up.set_state(HandState::EarlySurrender);
    assert_eq!(outcome(&given_up, &over), Winner::Dealer);
}

#[test]
fn resolution_records_the_end_state() {
    let ten = card(Rank::Ten, Suit::Hearts);
    let two = card(Rank::Two, Suit::Hearts);
    let ace = card(Rank::Ace, Suit::Hearts);
    let mut player = Hand::from_cards(vec![ten, ten, two], 10, true, false, true);
    player.set_state(HandState::EarlySurrender);
    let dealer = Hand::from_cards(vec![ace, ten], 10, false, true, false);
    let (winner, state) = resolve_hand(&player, &dealer, 40);
    assert_eq!(winner, Winner::Dealer);
    assert_eq!(
        state,
        EndState {
            hand_bet: 40,
            magnitude_bet_inc: 0,
            p_natural: false,
            p_insurance: false,
            p_doubled: true,
            p_bust: true,
            p_surrender_early: true,
            p_surrender_late: false,
            d_natural: true,
            d_bust: false,
        }
    );
}

#[test]
fn default_end_state() {
    let state = EndState::default();
    assert_eq!(state.hand_bet, u32::MAX);
    assert_eq!(state.magnitude_bet_inc, 0);
    assert!(!state.p_natural && !state.p_insurance && !state.p_doubled && !state.p_bust);
    assert!(!state.p_surrender_early && !state.p_surrender_late);
    assert!(!state.d_natural && !state.d_bust);
}

#[test]
fn last_winner_of_a_round() {
    let state = EndState::default();
    assert_eq!(determine_last_winner(&vec![]), Winner::Nobody);
    assert_eq!(determine_last_winner(&vec![(Winner::Tie, state)]), Winner::Tie);
    assert_eq!(determine_last_winner(&vec![(Winner::Player, state)]), Winner::Player);
    assert_eq!(
        determine_last_winner(&vec![(Winner::Player, state), (Winner::Tie, state)]),
        Winner::Player
    );
    assert_eq!(
        determine_last_winner(&vec![(Winner::Player, state), (Winner::Dealer, state)]),
        Winner::Tie
    );
    assert_eq!(
        determine_last_winner(&vec![(Winner::Tie, state), (Winner::Tie, state)]),
        Winner::Tie
    );
    assert_eq!(
        determine_last_winner(&vec![
            (Winner::Dealer, state),
            (Winner::Player, state),
            (Winner::Dealer, state)
        ]),
        Winner::Dealer
    );
}

// Play policies

#[test]
fn basic_strategy_doubles_only_once() {
    let dealer = vec![card(Rank::Ace, Suit::Hearts), card(Rank::Two, Suit::Spades)];
    let eleven = vec![card(Rank::Six, Suit::Hearts), card(Rank::Five, Suit::Spades)];
    assert_eq!(
        decision_of(BasicStrategy, eleven.clone(), dealer.clone(), false),
        PlayerDecision::Double
    );
    assert_eq!(decision_of(BasicStrategy, eleven, dealer, true), PlayerDecision::Hit);
}

#[test]
fn basic_strategy_by_cases() {
    let c = |rank| card(rank, Suit::Clubs);
    let up = |rank| vec![c(rank), c(Rank::Two)];
    // Twos, threes and sevens are split against an upcard under 8.
    assert_eq!(
        decision_of(BasicStrategy, vec![c(Rank::Seven), c(Rank::Seven)], up(Rank::Six), false),
        PlayerDecision::Split
    );
    assert_eq!(
        decision_of(BasicStrategy, vec![c(Rank::Seven), c(Rank::Seven)], up(Rank::Eight), false),
        PlayerDecision::Hit
    );
    assert_eq!(
        decision_of(BasicStrategy, vec![c(Rank::Two), c(Rank::Two)], up(Rank::Seven), false),
        PlayerDecision::Split
    );
    // Sixes are split against a poor upcard only.
    assert_eq!(
        decision_of(BasicStrategy, vec![c(Rank::Six), c(Rank::Six)], up(Rank::Five), false),
        PlayerDecision::Split
    );
    assert_eq!(
        decision_of(BasicStrategy, vec![c(Rank::Six), c(Rank::Six)], up(Rank::Two), false),
        PlayerDecision::Hit
    );
    // Three cards are never split.
    assert_eq!(
        decision_of(
            BasicStrategy,
            vec![c(Rank::Four), c(Rank::Four), c(Rank::Four)],
            up(Rank::Five),
            false
        ),
        PlayerDecision::Stand
    );
    // Ten is doubled but against a ten or an ace.
    assert_eq!(
        decision_of(BasicStrategy, vec![c(Rank::Six), c(Rank::Four)], up(Rank::Nine), false),
        PlayerDecision::Double
    );
    assert_eq!(
        decision_of(BasicStrategy, vec![c(Rank::Six), c(Rank::Four)], up(Rank::King), false),
        PlayerDecision::Hit
    );
    assert_eq!(
        decision_of(BasicStrategy, vec![c(Rank::Six), c(Rank::Four)], up(Rank::Ace), false),
        PlayerDecision::Hit
    );
    // Nine is doubled against an upcard that is not good.
    assert_eq!(
        decision_of(BasicStrategy, vec![c(Rank::Six), c(Rank::Three)], up(Rank::Three), false),
        PlayerDecision::Double
    );
    assert_eq!(
        decision_of(BasicStrategy, vec![c(Rank::Six), c(Rank::Three)], up(Rank::Seven), false),
        PlayerDecision::Hit
    );
    // Hit or stand by the cutoff: 17 against good, 13 against fair, 12 against poor.
    assert_eq!(
        decision_of(BasicStrategy, vec![c(Rank::Ten), c(Rank::Six)], up(Rank::Seven), false),
        PlayerDecision::Hit
    );
    assert_eq!(
        decision_of(BasicStrategy, vec![c(Rank::Ten), c(Rank::Seven)], up(Rank::Seven), false),
        PlayerDecision::Stand
    );
    assert_eq!(
        decision_of(BasicStrategy, vec![c(Rank::Ten), c(Rank::Two)], up(Rank::Two), false),
        PlayerDecision::Hit
    );
    assert_eq!(
        decision_of(BasicStrategy, vec![c(Rank::Ten), c(Rank::Three)], up(Rank::Two), false),
        PlayerDecision::Stand
    );
    assert_eq!(
        decision_of(BasicStrategy, vec![c(Rank::Ten), c(Rank::Two)], up(Rank::Four), false),
        PlayerDecision::Stand
    );
    // A soft hand under 18 takes a card.
    assert_eq!(
        decision_of(BasicStrategy, vec![c(Rank::Ace), c(Rank::Six)], up(Rank::Four), false),
        PlayerDecision::Hit
    );
    assert_eq!(
        decision_of(BasicStrategy, vec![c(Rank::Ace), c(Rank::Seven)], up(Rank::Four), false),
        PlayerDecision::Stand
    );
}

#[test]
fn dealer_play_stands_from_the_cutoff() {
    let c = |rank| card(rank, Suit::Clubs);
    let player = vec![c(Rank::Two), c(Rank::Two)];
    assert_eq!(
        decision_of(DealerPlay, player.clone(), vec![c(Rank::Ten), c(Rank::Six)], false),
        PlayerDecision::Hit
    );
    assert_eq!(
        decision_of(DealerPlay, player.clone(), vec![c(Rank::Ten), c(Rank::Seven)], false),
        PlayerDecision::Stand
    );
    assert_eq!(
        decision_of(DealerPlay, player, vec![c(Rank::Ace), c(Rank::Six)], false),
        PlayerDecision::Stand
    );
}

#[test]
fn mimic_dealer_and_naive_soft() {
    let c = |rank| card(rank, Suit::Clubs);
    let dealer = vec![c(Rank::Ten), c(Rank::Ten)];
    assert_eq!(
        decision_of(MimicDealer, vec![c(Rank::Ten), c(Rank::Six)], dealer.clone(), false),
        PlayerDecision::Hit
    );
    assert_eq!(
        decision_of(MimicDealer, vec![c(Rank::Ace), c(Rank::Six)], dealer.clone(), false),
        PlayerDecision::Stand
    );
    assert_eq!(
        decision_of(NaiveSoft, vec![c(Rank::Ace), c(Rank::Six)], dealer.clone(), false),
        PlayerDecision::Hit
    );
    assert_eq!(
        decision_of(NaiveSoft, vec![c(Rank::Ace), c(Rank::Seven)], dealer.clone(), false),
        PlayerDecision::Stand
    );
    assert_eq!(
        decision_of(NaiveSoft, vec![c(Rank::Ten), c(Rank::Seven)], dealer.clone(), false),
        PlayerDecision::Stand
    );
    assert_eq!(
        decision_of(NaiveSoft, vec![c(Rank::Ten), c(Rank::Six)], dealer, false),
        PlayerDecision::Hit
    );
}

#[test]
fn cutoff_only_hits_every_soft_hand_short_of_21() {
    let c = |rank| card(rank, Suit::Clubs);
    let poor = vec![c(Rank::Five), c(Rank::Ten)];
    assert_eq!(
        decision_of(CutoffOnly, vec![c(Rank::Ten), c(Rank::Two)], poor.clone(), false),
        PlayerDecision::Stand
    );
    assert_eq!(
        decision_of(CutoffOnly, vec![c(Rank::Nine), c(Rank::Two)], poor.clone(), false),
        PlayerDecision::Hit
    );
    assert_eq!(
        decision_of(CutoffOnly, vec![c(Rank::Ace), c(Rank::Nine)], poor.clone(), false),
        PlayerDecision::Hit
    );
    assert_eq!(
        decision_of(CutoffOnly, vec![c(Rank::Ace), c(Rank::King)], poor, false),
        PlayerDecision::Stand
    );
}

#[test]
fn double_only_and_split_only_fall_back_to_naive_soft() {
    let c = |rank| card(rank, Suit::Clubs);
    let dealer = vec![c(Rank::Six), c(Rank::Ten)];
    assert_eq!(
        decision_of(DoubleOnly, vec![c(Rank::Six), c(Rank::Five)], dealer.clone(), false),
        PlayerDecision::Double
    );
    assert_eq!(
        decision_of(DoubleOnly, vec![c(Rank::Eight), c(Rank::Eight)], dealer.clone(), false),
        PlayerDecision::Hit
    );
    assert_eq!(
        decision_of(DoubleOnly, vec![c(Rank::Ten), c(Rank::Eight)], dealer.clone(), false),
        PlayerDecision::Stand
    );
    assert_eq!(
        decision_of(SplitOnly, vec![c(Rank::Eight), c(Rank::Eight)], dealer.clone(), false),
        PlayerDecision::Split
    );
    assert_eq!(
        decision_of(SplitOnly, vec![c(Rank::Six), c(Rank::Five)], dealer.clone(), false),
        PlayerDecision::Hit
    );
    assert_eq!(
        decision_of(SplitOnly, vec![c(Rank::Ace), c(Rank::Ace)], dealer, false),
        PlayerDecision::Split
    );
}

#[test]
fn policies_have_names() {
    assert_eq!(DealerPlay.to_string(), "Dealer Play");
    assert_eq!(MimicDealer.to_string(), "Mimic Dealer");
    assert_eq!(NaiveSoft.to_string(), "Naive Soft");
    assert_eq!(CutoffOnly.to_string(), "Cutoff Only");
    assert_eq!(DoubleOnly.to_string(), "Double Only");
    assert_eq!(SplitOnly.to_string(), "Split Only");
    assert_eq!(BasicStrategy.to_string(), "Basic Strategy");
    assert_eq!(HiLo.to_string(), "Hi Lo");
    assert_eq!(KnockOut.to_string(), "Knock Out");
    assert_eq!(OmegaTwo.to_string(), "Omega Two");
    assert_eq!(NoInsurance.to_string(), "No Insurance");
    assert_eq!(ConstantBet.to_string(), "Constant Bet");
    assert_eq!(Martingale.to_string(), "Martingale");
}

// Counting

#[test]
fn a_hard_ace_counts_as_an_ace() {
    let mut ace = card(Rank::Ace, Suit::Hearts);
    ace.deflate();
    assert_eq!(HiLo.get_decision(ace), -1);
    assert_eq!(KnockOut.get_decision(ace), -1);
    assert_eq!(OmegaTwo.get_decision(ace), 0);
}

#[test]
fn counting_deltas_by_rank() {
    let ranks = Rank::iterator();
    let hi_lo = [-1, 1, 1, 1, 1, 1, 0, 0, 0, -1, -1, -1, -1];
    let knock_out = [-1, 1, 1, 1, 1, 1, 1, 0, 0, -1, -1, -1, -1];
    let omega_two = [0, 1, 1, 2, 2, 2, 1, 0, -1, -2, -2, -2, -2];
    for (i, rank) in ranks.into_iter().enumerate() {
        let card = Card::from_rank(rank);
        assert_eq!(HiLo.get_decision(card), hi_lo[i]);
        assert_eq!(KnockOut.get_decision(card), knock_out[i]);
        assert_eq!(OmegaTwo.get_decision(card), omega_two[i]);
    }
}

#[test]
fn running_count_is_the_sum_over_the_played_cards() {
    let mut game = basic_game();
    for _ in 0..40 {
        game.draw();
    }
    let sum: i32 = game.played_cards.iter().map(|card| HiLo.get_decision(*card) as i32).sum();
    assert_eq!(game.running_count, sum);
    let count = game.true_count();
    assert_eq!(count.running_count, sum);
    assert_eq!(count.deck_count, 6);
}

// Betting

fn bet_state(init_bet: u32, last_bet: u32, last_winner: Winner) -> GameState {
    let mut state = GameState::new(
        init_bet,
        vec![],
        None,
        None,
        Some(Hand::new(init_bet)),
        None,
        17,
        false,
        last_winner,
        0,
        TrueCount { running_count: 0, deck_count: 6 },
        false,
        false,
    );
    state.last_bet = last_bet;
    state
}

#[test]
fn martingale_by_last_winner() {
    assert_eq!(Martingale.get_decision(bet_state(10, 40, Winner::Dealer)), 80);
    assert_eq!(Martingale.get_decision(bet_state(10, 40, Winner::Player)), 10);
    assert_eq!(Martingale.get_decision(bet_state(10, 40, Winner::Tie)), 40);
    assert_eq!(Martingale.get_decision(bet_state(10, 40, Winner::Nobody)), 10);
    assert_eq!(Martingale.get_decision(bet_state(10, MAX_BET, Winner::Dealer)), u32::MAX - 1);
}

#[test]
fn constant_bet_and_kelly_stake_the_base() {
    assert_eq!(ConstantBet.get_decision(bet_state(10, 40, Winner::Dealer)), 10);
    assert_eq!(ConstantBet.get_decision(bet_state(25, 40, Winner::Player)), 25);
    assert_eq!(kelly_criterion(bet_state(25, 40, Winner::Player)), 25);
}

#[test]
fn player_asks_the_bet_policy() {
    let mut game = standard_game(BasicStrategy, DealerPlay, Martingale, HiLo, NoInsurance);
    game.last_bet = 30;
    game.last_winner = Winner::Dealer;
    let bet = game.player.decide_bet(game.get_state(Some(Hand::new(game.init_bet))));
    assert_eq!(bet, 60);
}

#[test]
fn dealer_asks_the_dealer_policy() {
    let mut game = basic_game();
    let ten = card(Rank::Ten, Suit::Hearts);
    let hand = hand_of(vec![ten, card(Rank::Six, Suit::Hearts)], 10);
    set_hands(&mut game, hand.clone(), vec![hand.clone()]);
    assert!(!game.dealer.is_finished());
    assert_eq!(game.dealer.decide_play(game.get_state(Some(hand))), PlayerDecision::Hit);
    let mut done = hand_of(vec![ten, ten], 10);
    done.set_state(HandState::Finished);
    game.set_dealer_hand(done);
    assert!(game.dealer.is_finished());
}

// The dealer's steps

#[test]
fn apply_dealer_decision_makes_the_dealers_move() {
    let mut game = game_with_top_cards(vec![card(Rank::Three, Suit::Clubs)]);
    let ten = card(Rank::Ten, Suit::Hearts);
    let six = card(Rank::Six, Suit::Hearts);
    set_hands(&mut game, hand_of(vec![ten, six], 10), vec![hand_of(vec![ten, ten], 10)]);
    let player = game.player.hands.clone();
    assert_eq!(game.apply_dealer_decision(PlayerDecision::Hit), Ok(()));
    let dealer = game.dealer.hand.clone().unwrap();
    assert_eq!(dealer.cards, vec![ten, six, card(Rank::Three, Suit::Clubs)]);
    assert_eq!(dealer.state, HandState::Playing);
    assert_eq!(game.played_cards, vec![card(Rank::Three, Suit::Clubs)]);
    assert_eq!(game.apply_dealer_decision(PlayerDecision::Stand), Ok(()));
    let dealer = game.dealer.hand.clone().unwrap();
    assert_eq!(dealer.cards.len(), 3);
    assert_eq!(dealer.state, HandState::Finished);
    assert_eq!(game.played_cards.len(), 1);
    assert_eq!(game.player.hands, player);
}

#[test]
fn apply_dealer_decision_rejects_what_the_dealer_may_not_do() {
    let mut game = basic_game();
    let ten = card(Rank::Ten, Suit::Hearts);
    let dealer = hand_of(vec![ten, ten], 10);
    set_hands(&mut game, dealer.clone(), vec![hand_of(vec![ten, ten], 10)]);
    for decision in [
        PlayerDecision::Split,
        PlayerDecision::Double,
        PlayerDecision::EarlySurrender,
        PlayerDecision::LateSurrender,
    ] {
        assert_eq!(game.apply_dealer_decision(decision), Err(GameError::DealerDecision));
        assert_eq!(game.dealer.hand, Some(dealer.clone()));
        assert!(game.played_cards.is_empty());
    }
    let mut full = Vec::new();
    for _ in 0..25 {
        full.push(ten);
    }
    game.set_dealer_hand(hand_of(full, 10));
    assert_eq!(game.apply_dealer_decision(PlayerDecision::Hit), Err(GameError::HandFull));
    assert_eq!(game.dealer.hand.as_ref().unwrap().cards.len(), 25);
    assert!(game.played_cards.is_empty());
    assert_eq!(game.apply_dealer_decision(PlayerDecision::Stand), Ok(()));
}

#[test]
fn handle_dealer_hand_marks_a_natural_and_stands() {
    let mut game = basic_game();
    let ten = card(Rank::Ten, Suit::Hearts);
    set_hands(
        &mut game,
        hand_of(vec![card(Rank::Ace, Suit::Hearts), card(Rank::King, Suit::Spades)], 10),
        vec![hand_of(vec![ten, ten], 10)],
    );
    assert_eq!(game.handle_dealer_hand(), Ok(()));
    let dealer = game.dealer.hand.clone().unwrap();
    assert!(dealer.natural);
    assert_eq!(dealer.state, HandState::Finished);
    assert_eq!(dealer.cards.len(), 2);
    assert!(game.played_cards.is_empty());
    assert_eq!(game.handle_dealer_hand(), Ok(()));
    assert_eq!(game.dealer.hand, Some(dealer));
}

#[test]
fn handle_dealer_hand_draws_below_the_cutoff() {
    let mut game = game_with_top_cards(vec![
        card(Rank::Two, Suit::Clubs),
        card(Rank::Nine, Suit::Clubs),
    ]);
    let ten = card(Rank::Ten, Suit::Hearts);
    set_hands(
        &mut game,
        hand_of(vec![ten, card(Rank::Four, Suit::Hearts)], 10),
        vec![hand_of(vec![ten, ten], 10)],
    );
    assert_eq!(game.handle_dealer_hand(), Ok(()));
    assert_eq!(game.dealer.hand.as_ref().unwrap().value(), 16);
    assert_eq!(game.dealer.hand.as_ref().unwrap().state, HandState::Playing);
    assert!(!game.dealer.hand.as_ref().unwrap().natural);
    assert_eq!(game.handle_dealer_hand(), Ok(()));
    assert_eq!(game.dealer.hand.as_ref().unwrap().value(), 25);
    assert_eq!(game.dealer.hand.as_ref().unwrap().state, HandState::Playing);
    assert_eq!(game.handle_dealer_hand(), Ok(()));
    assert_eq!(game.dealer.hand.as_ref().unwrap().state, HandState::Finished);
    assert_eq!(game.played_cards.len(), 2);
}

#[test]
fn handle_dealer_hand_gives_up_on_a_forbidden_move() {
    let eight = card(Rank::Eight, Suit::Hearts);
    let ten = card(Rank::Ten, Suit::Hearts);
    let mut game = standard_game(NaiveSoft, BasicStrategy, ConstantBet, HiLo, NoInsurance);
    set_hands(&mut game, hand_of(vec![eight, eight], 10), vec![hand_of(vec![ten, ten], 10)]);
    assert_eq!(game.handle_dealer_hand(), Err(GameError::DealerDecision));
    assert_eq!(game.dealer.hand, Some(hand_of(vec![eight, eight], 10)));
}

// Rounds that ask nobody

#[test]
fn round_of_finished_hands_draws_no_card() {
    let mut game = basic_game();
    let king = Card::from_rank(Rank::King);
    let mut player = hand_of(vec![king, Card::from_rank(Rank::Five), Card::from_rank(Rank::Seven)], 10);
    player.set_state(HandState::Finished);
    let mut dealer = hand_of(vec![king, Card::from_rank(Rank::Six), king], 10);
    dealer.set_state(HandState::Finished);
    set_hands(&mut game, dealer.clone(), vec![player.clone()]);
    let shoe = game.deck.decks.cards.clone();
    let results = game.play_hand().unwrap();
    assert_eq!(results.len(), 1);
    assert_eq!(results[0].0, Winner::Dealer);
    assert!(results[0].1.p_bust);
    assert!(results[0].1.d_bust);
    assert_eq!(game.last_winner, Winner::Dealer);
    assert_eq!(game.last_bet, 10);
    assert_eq!(game.player.hands, vec![player]);
    assert_eq!(game.dealer.hand, Some(dealer));
    assert_eq!(game.deck.decks.cards, shoe);
    assert!(game.played_cards.is_empty());
}

#[test]
fn twenty_two_stands_and_loses_to_eighteen() {
    let mut game = basic_game();
    let king = Card::from_rank(Rank::King);
    set_hands(
        &mut game,
        hand_of(vec![king, Card::from_rank(Rank::Eight)], 10),
        vec![hand_of(vec![king, Card::from_rank(Rank::Five), Card::from_rank(Rank::Seven)], 10)],
    );
    let results = game.play_hand().unwrap();
    assert_eq!(results[0].0, Winner::Dealer);
    assert!(results[0].1.p_bust);
    assert!(!results[0].1.d_bust);
    assert!(game.played_cards.is_empty());
    assert_eq!(game.player.hands[0].cards.len(), 3);
}

#[test]
fn three_card_21_loses_to_a_dealers_natural() {
    let mut game = basic_game();
    set_hands(
        &mut game,
        hand_of(vec![card(Rank::Ace, Suit::Hearts), card(Rank::King, Suit::Spades)], 10),
        vec![hand_of(
            vec![
                card(Rank::Five, Suit::Hearts),
                card(Rank::Six, Suit::Spades),
                card(Rank::King, Suit::Diamonds),
            ],
            10,
        )],
    );
    let results = game.play_hand().unwrap();
    assert_eq!(results.len(), 1);
    assert_eq!(results[0].0, Winner::Dealer);
    assert!(results[0].1.d_natural);
    assert!(!results[0].1.p_natural && !results[0].1.p_bust && !results[0].1.d_bust);
    assert_eq!(game.last_winner, Winner::Dealer);
    assert!(game.played_cards.is_empty());
}

#[test]
fn hand_given_up_before_the_round_keeps_its_place() {
    let mut game = game_with_top_cards(vec![
        card(Rank::Ten, Suit::Clubs),
        card(Rank::Nine, Suit::Clubs),
        card(Rank::King, Suit::Clubs),
    ]);
    let eight = card(Rank::Eight, Suit::Hearts);
    let ten = card(Rank::Ten, Suit::Hearts);
    let mut given_up = hand_of(vec![ten, card(Rank::Nine, Suit::Hearts)], 10);
    given_up.set_state(HandState::LateSurrender);
    set_hands(
        &mut game,
        hand_of(vec![ten, card(Rank::Six, Suit::Hearts)], 10),
        vec![hand_of(vec![eight, eight], 10), given_up.clone()],
    );
    let results = game.play_hand().unwrap();
    assert_eq!(game.player.hands.len(), 3);
    assert_eq!(game.player.hands[0], given_up);
    assert_eq!(results[0].0, Winner::Dealer);
    assert!(results[0].1.p_surrender_late && !results[0].1.p_surrender_early);
    assert_eq!(game.dealer.hand.as_ref().unwrap().value(), 26);
    assert!(results[0].1.d_bust);
    assert_eq!(results[1].0, Winner::Player);
    assert_eq!(results[2].0, Winner::Player);
}

#[test]
fn run_of_no_rounds_adds_nothing() {
    let (deck, rng) = shuffled_shoe(6, false);
    let settings =
        settings_with(deck, BasicStrategy, DealerPlay, ConstantBet, HiLo, NoInsurance, rng);
    let mut pool = GamePool::new(Arc::new(settings));
    assert_eq!(pool.simulate(0), Ok(()));
    assert!(pool.results.is_empty());
    assert_eq!(pool.simulated_games, 0);
}
