//! The decisions a player can take, and the policies that take them: how to
//! play a hand, how to count a card, and whether to take insurance.

use crate::deck::{Card, Rank};
use crate::{GameState, GameStateView};
use vstd::prelude::*;

verus! {

/// What a player does with a hand.
#[derive(Debug, Copy, Clone, PartialEq, Eq, Structural)]
pub enum PlayerDecision {
    Split,
    Double,
    Hit,
    Stand,
    EarlySurrender,
    LateSurrender,
}

/// A coarse reading of the dealer's upcard: 7 to ace is good for the dealer,
/// 2 and 3 are fair, 4 to 6 are poor.
#[derive(Debug, Copy, Clone, PartialEq, Eq, Structural)]
pub enum DealerUpcardStrength {
    Good,
    Fair,
    Poor,
}

/// What every policy has: a name, and no state of its own.
pub trait StrategyFunc: Copy {
    /// The policy's name.
    fn to_string(&self) -> String;
}

/// A policy that plays a hand: the player's, or the dealer's own.
pub trait PlayStrategy: StrategyFunc {
    /// What the policy does in the state shown.
    spec fn decision(&self, state: GameStateView) -> PlayerDecision;

    /// Decides on the hand that acts in the state shown.
    fn get_decision(&self, state: GameState) -> (decision: PlayerDecision)
        requires
            state@.ready_to_play(),
        ensures
            decision == self.decision(state@),
    ;
}

/// A policy that counts cards: what a card adds to the running count.
pub trait CountStrategy: StrategyFunc {
    /// What the card adds to the running count.
    spec fn delta(&self, card: Card) -> i8;

    /// Counts a card that was drawn. The sentinel is never counted.
    fn get_decision(&self, card: Card) -> (delta: i8)
        requires
            card.rank != Rank::Blank,
        ensures
            delta == self.delta(card),
    ;
}

/// What a counting policy adds to the running count, card by card.
pub open spec fn count_by<C: CountStrategy>(strategy: C) -> spec_fn(Card) -> i8 {
    |card: Card| strategy.delta(card)
}

/// A policy that takes or declines insurance against a dealer's ace.
pub trait InsuranceStrategy: StrategyFunc {
    /// Whether the policy takes insurance in the state shown.
    spec fn takes(&self, state: GameStateView) -> bool;

    /// Decides whether to take insurance in the state shown.
    fn get_decision(&self, state: GameState) -> (take: bool)
        requires
            state@.ready_to_play(),
        ensures
            take == self.takes(state@),
    ;
}

/// The total from which a player who goes by the upcard's strength stands.
pub open spec fn stand_cutoff(strength: DealerUpcardStrength) -> u8 {
    match strength {
        DealerUpcardStrength::Good => 17u8,
        DealerUpcardStrength::Fair => 13u8,
        DealerUpcardStrength::Poor => 12u8,
    }
}

/// The dealer's rule: stand from the cutoff on, else take a card.
pub open spec fn dealer_rule(state: GameStateView) -> PlayerDecision {
    if state.dealer_hand.unwrap().total() >= state.dealer_cutoff {
        PlayerDecision::Stand
    } else {
        PlayerDecision::Hit
    }
}

/// The dealer's rule applied to the player's hand.
pub open spec fn mimic_rule(state: GameStateView) -> PlayerDecision {
    if state.player_hand.unwrap().total() >= state.dealer_cutoff {
        PlayerDecision::Stand
    } else {
        PlayerDecision::Hit
    }
}

/// Take a card below the dealer's cutoff, and from the cutoff on only on a
/// hand under 18 that holds an ace counting 11.
pub open spec fn naive_soft_rule(state: GameStateView) -> PlayerDecision {
    let hand = state.player_hand.unwrap();
    if hand.total() >= state.dealer_cutoff {
        if crate::hand::holds_soft_ace(hand.cards) && hand.total() < 18 {
            PlayerDecision::Hit
        } else {
            PlayerDecision::Stand
        }
    } else {
        PlayerDecision::Hit
    }
}

/// Take a card below the cutoff that goes with the upcard's strength, and on
/// any hand short of 21 that holds an ace counting 11.
pub open spec fn cutoff_rule(state: GameStateView) -> PlayerDecision {
    let hand = state.player_hand.unwrap();
    if hand.total() < stand_cutoff(state.dealer_upcard_str.unwrap())
        || crate::hand::holds_soft_ace(hand.cards) && hand.total() != 21 {
        PlayerDecision::Hit
    } else {
        PlayerDecision::Stand
    }
}

/// Whether to double down: on a hand not doubled yet that totals 11, or 10
/// against an upcard other than a ten or an ace, or 9 against an upcard that
/// is not good.
pub open spec fn wants_double(state: GameStateView) -> bool {
    let hand = state.player_hand.unwrap();
    let upcard = state.dealer_upcard.unwrap();
    &&& !hand.doubled
    &&& {
        ||| hand.total() == 11
        ||| hand.total() == 10 && upcard.points() != 10 && upcard.points() != 11
        ||| hand.total() == 9 && state.dealer_upcard_str.unwrap() != DealerUpcardStrength::Good
    }
}

/// Whether to split: a hand of two cards of one rank, if they are eights or
/// aces; or twos, threes or sevens against an upcard under 8; or sixes
/// against a poor upcard.
pub open spec fn wants_split(state: GameStateView) -> bool {
    let hand = state.player_hand.unwrap();
    let upcard = state.dealer_upcard.unwrap();
    &&& hand.is_pair()
    &&& {
        ||| hand.cards[0].rank == Rank::Eight
        ||| hand.cards[0].rank == Rank::Ace
        ||| (hand.total() == 4 || hand.total() == 6 || hand.total() == 14) && !(8
            <= upcard.points() <= 11)
        ||| hand.total() == 12 && state.dealer_upcard_str.unwrap() == DealerUpcardStrength::Poor
    }
}

/// Double down where that is wanted, else as `naive_soft_rule`.
pub open spec fn double_rule(state: GameStateView) -> PlayerDecision {
    if wants_double(state) {
        PlayerDecision::Double
    } else {
        naive_soft_rule(state)
    }
}

/// Split where that is wanted, else as `naive_soft_rule`.
pub open spec fn split_rule(state: GameStateView) -> PlayerDecision {
    if wants_split(state) {
        PlayerDecision::Split
    } else {
        naive_soft_rule(state)
    }
}

/// Basic strategy: split where that is wanted; else double down where that
/// is wanted; else take a card below the cutoff that goes with the upcard's
/// strength, and on a hand under 18 that holds an ace counting 11.
pub open spec fn basic_rule(state: GameStateView) -> PlayerDecision {
    let hand = state.player_hand.unwrap();
    if wants_split(state) {
        PlayerDecision::Split
    } else if wants_double(state) {
        PlayerDecision::Double
    } else if hand.total() < stand_cutoff(state.dealer_upcard_str.unwrap())
        || crate::hand::holds_soft_ace(hand.cards) && hand.total() < 18 {
        PlayerDecision::Hit
    } else {
        PlayerDecision::Stand
    }
}

/// The stand cutoff that goes with the upcard's strength.
fn cutoff_for(strength: DealerUpcardStrength) -> (cutoff: u8)
    ensures
        cutoff == stand_cutoff(strength),
{
    match strength {
        DealerUpcardStrength::Good => 17,
        DealerUpcardStrength::Fair => 13,
        DealerUpcardStrength::Poor => 12,
    }
}

/// `naive_soft_rule` on a state.
fn naive_soft(state: &GameState) -> (decision: PlayerDecision)
    requires
        state@.ready_to_play(),
    ensures
        decision == naive_soft_rule(state@),
{
    match &state.player_hand {
        Some(hand) => {
            let total: u8 = hand.value();
            if total >= state.dealer_cutoff {
                if hand.contains_soft_ace() && total < 18 {
                    PlayerDecision::Hit
                } else {
                    PlayerDecision::Stand
                }
            } else {
                PlayerDecision::Hit
            }
        },
        None => PlayerDecision::Stand,
    }
}

/// `wants_double` on a state.
fn should_double(state: &GameState) -> (double: bool)
    requires
        state@.ready_to_play(),
    ensures
        double == wants_double(state@),
{
    match (&state.player_hand, state.dealer_upcard, state.dealer_upcard_str) {
        (Some(hand), Some(upcard), Some(strength)) => {
            if hand.doubled {
                return false;
            }
            let total: u8 = hand.value();
            let up: u8 = upcard.value();
            if total == 11 {
                true
            } else if total == 10 {
                up != 10 && up != 11
            } else if total == 9 {
                strength != DealerUpcardStrength::Good
            } else {
                false
            }
        },
        _ => false,
    }
}

/// `wants_split` on a state.
fn should_split(state: &GameState) -> (split: bool)
    requires
        state@.ready_to_play(),
    ensures
        split == wants_split(state@),
{
    match (&state.player_hand, state.dealer_upcard, state.dealer_upcard_str) {
        (Some(hand), Some(upcard), Some(strength)) => {
            if hand.cards.len() != 2 || !hand.contains_pair() {
                return false;
            }
            if hand.contains_pair_of(Card::from_rank(Rank::Eight)) || hand.contains_pair_of(
                Card::from_rank(Rank::Ace),
            ) {
                return true;
            }
            let total: u8 = hand.value();
            let up: u8 = upcard.value();
            if (total == 4 || total == 6 || total == 14) && !(8 <= up && up <= 11) {
                return true;
            }
            total == 12 && strength == DealerUpcardStrength::Poor
        },
        _ => false,
    }
}

/// The dealer's policy: stand from the cutoff on, even on a soft hand.
#[derive(Debug, Copy, Clone)]
pub struct DealerPlay;

impl StrategyFunc for DealerPlay {
    fn to_string(&self) -> (text: String)
        ensures
            text@ == "Dealer Play"@,
    {
        "Dealer Play".to_owned()
    }
}

impl PlayStrategy for DealerPlay {
    open spec fn decision(&self, state: GameStateView) -> PlayerDecision {
        dealer_rule(state)
    }

    fn get_decision(&self, state: GameState) -> (decision: PlayerDecision) {
        match &state.dealer_hand {
            Some(hand) => {
                if hand.value() >= state.dealer_cutoff {
                    PlayerDecision::Stand
                } else {
                    PlayerDecision::Hit
                }
            },
            None => PlayerDecision::Stand,
        }
    }
}

/// The player plays as the dealer does.
#[derive(Debug, Copy, Clone)]
pub struct MimicDealer;

impl StrategyFunc for MimicDealer {
    fn to_string(&self) -> (text: String)
        ensures
            text@ == "Mimic Dealer"@,
    {
        "Mimic Dealer".to_owned()
    }
}

impl PlayStrategy for MimicDealer {
    open spec fn decision(&self, state: GameStateView) -> PlayerDecision {
        mimic_rule(state)
    }

    fn get_decision(&self, state: GameState) -> (decision: PlayerDecision) {
        match &state.player_hand {
            Some(hand) => {
                if hand.value() >= state.dealer_cutoff {
                    PlayerDecision::Stand
                } else {
                    PlayerDecision::Hit
                }
            },
            None => PlayerDecision::Stand,
        }
    }
}

/// The dealer's rule, but a soft hand under 18 takes a card.
#[derive(Debug, Copy, Clone)]
pub struct NaiveSoft;

impl StrategyFunc for NaiveSoft {
    fn to_string(&self) -> (text: String)
        ensures
            text@ == "Naive Soft"@,
    {
        "Naive Soft".to_owned()
    }
}

impl PlayStrategy for NaiveSoft {
    open spec fn decision(&self, state: GameStateView) -> PlayerDecision {
        naive_soft_rule(state)
    }

    fn get_decision(&self, state: GameState) -> (decision: PlayerDecision) {
        naive_soft(&state)
    }
}

/// Stand from a cutoff that goes with the strength of the dealer's upcard.
#[derive(Debug, Copy, Clone)]
pub struct CutoffOnly;

impl StrategyFunc for CutoffOnly {
    fn to_string(&self) -> (text: String)
        ensures
            text@ == "Cutoff Only"@,
    {
        "Cutoff Only".to_owned()
    }
}

impl PlayStrategy for CutoffOnly {
    open spec fn decision(&self, state: GameStateView) -> PlayerDecision {
        cutoff_rule(state)
    }

    fn get_decision(&self, state: GameState) -> (decision: PlayerDecision) {
        match (&state.player_hand, state.dealer_upcard_str) {
            (Some(hand), Some(strength)) => {
                let total: u8 = hand.value();
                if total < cutoff_for(strength) || hand.contains_soft_ace() && total != 21 {
                    PlayerDecision::Hit
                } else {
                    PlayerDecision::Stand
                }
            },
            _ => PlayerDecision::Stand,
        }
    }
}

/// `NaiveSoft` with doubling down.
#[derive(Debug, Copy, Clone)]
pub struct DoubleOnly;

impl StrategyFunc for DoubleOnly {
    fn to_string(&self) -> (text: String)
        ensures
            text@ == "Double Only"@,
    {
        "Double Only".to_owned()
    }
}

impl PlayStrategy for DoubleOnly {
    open spec fn decision(&self, state: GameStateView) -> PlayerDecision {
        double_rule(state)
    }

    fn get_decision(&self, state: GameState) -> (decision: PlayerDecision) {
        if should_double(&state) {
            PlayerDecision::Double
        } else {
            naive_soft(&state)
        }
    }
}

/// `NaiveSoft` with splitting.
#[derive(Debug, Copy, Clone)]
pub struct SplitOnly;

impl StrategyFunc for SplitOnly {
    fn to_string(&self) -> (text: String)
        ensures
            text@ == "Split Only"@,
    {
        "Split Only".to_owned()
    }
}

impl PlayStrategy for SplitOnly {
    open spec fn decision(&self, state: GameStateView) -> PlayerDecision {
        split_rule(state)
    }

    fn get_decision(&self, state: GameState) -> (decision: PlayerDecision) {
        if should_split(&state) {
            PlayerDecision::Split
        } else {
            naive_soft(&state)
        }
    }
}

/// Basic strategy: split first, then double down, then hit or stand by the
/// strength of the dealer's upcard.
#[derive(Debug, Copy, Clone)]
pub struct BasicStrategy;

impl StrategyFunc for BasicStrategy {
    fn to_string(&self) -> (text: String)
        ensures
            text@ == "Basic Strategy"@,
    {
        "Basic Strategy".to_owned()
    }
}

impl PlayStrategy for BasicStrategy {
    open spec fn decision(&self, state: GameStateView) -> PlayerDecision {
        basic_rule(state)
    }

    fn get_decision(&self, state: GameState) -> (decision: PlayerDecision) {
        // A pair of aces is split, not doubled: the split comes first.
        if should_split(&state) {
            return PlayerDecision::Split;
        }
        if should_double(&state) {
            return PlayerDecision::Double;
        }
        match (&state.player_hand, state.dealer_upcard_str) {
            (Some(hand), Some(strength)) => {
                let total: u8 = hand.value();
                if total < cutoff_for(strength) || hand.contains_soft_ace() && total < 18 {
                    PlayerDecision::Hit
                } else {
                    PlayerDecision::Stand
                }
            },
            _ => PlayerDecision::Stand,
        }
    }
}

/// What a card adds to the Hi-Lo count: 2 to 6 add one, 7 to 9 nothing, tens,
/// court cards and aces take one off.
pub open spec fn hi_lo_delta(card: Card) -> i8 {
    match card.rank {
        Rank::Two | Rank::Three | Rank::Four | Rank::Five | Rank::Six => 1i8,
        Rank::Seven | Rank::Eight | Rank::Nine | Rank::Blank => 0i8,
        Rank::Ten | Rank::Jack | Rank::Queen | Rank::King | Rank::Ace => -1i8,
    }
}

/// What a card adds to the Knock-Out count: 2 to 7 add one, 8 and 9 nothing,
/// tens, court cards and aces take one off.
pub open spec fn knock_out_delta(card: Card) -> i8 {
    match card.rank {
        Rank::Two | Rank::Three | Rank::Four | Rank::Five | Rank::Six | Rank::Seven => 1i8,
        Rank::Eight | Rank::Nine | Rank::Blank => 0i8,
        Rank::Ten | Rank::Jack | Rank::Queen | Rank::King | Rank::Ace => -1i8,
    }
}

/// What a card adds to the Omega II count: 4 to 6 add two; 2, 3 and 7 add
/// one; 8 and aces nothing; 9 takes one off; tens and court cards two.
pub open spec fn omega_two_delta(card: Card) -> i8 {
    match card.rank {
        Rank::Four | Rank::Five | Rank::Six => 2i8,
        Rank::Two | Rank::Three | Rank::Seven => 1i8,
        Rank::Eight | Rank::Ace | Rank::Blank => 0i8,
        Rank::Nine => -1i8,
        Rank::Ten | Rank::Jack | Rank::Queen | Rank::King => -2i8,
    }
}

/// The Hi-Lo count.
#[derive(Debug, Copy, Clone)]
pub struct HiLo;

impl StrategyFunc for HiLo {
    fn to_string(&self) -> (text: String)
        ensures
            text@ == "Hi Lo"@,
    {
        "Hi Lo".to_owned()
    }
}

impl CountStrategy for HiLo {
    open spec fn delta(&self, card: Card) -> i8 {
        hi_lo_delta(card)
    }

    fn get_decision(&self, card: Card) -> (delta: i8) {
        match card.rank {
            Rank::Two | Rank::Three | Rank::Four | Rank::Five | Rank::Six => 1,
            Rank::Seven | Rank::Eight | Rank::Nine | Rank::Blank => 0,
            Rank::Ten | Rank::Jack | Rank::Queen | Rank::King | Rank::Ace => -1,
        }
    }
}

/// The Knock-Out count.
#[derive(Debug, Copy, Clone)]
pub struct KnockOut;

impl StrategyFunc for KnockOut {
    fn to_string(&self) -> (text: String)
        ensures
            text@ == "Knock Out"@,
    {
        "Knock Out".to_owned()
    }
}

impl CountStrategy for KnockOut {
    open spec fn delta(&self, card: Card) -> i8 {
        knock_out_delta(card)
    }

    fn get_decision(&self, card: Card) -> (delta: i8) {
        match card.rank {
            Rank::Two | Rank::Three | Rank::Four | Rank::Five | Rank::Six | Rank::Seven => 1,
            Rank::Eight | Rank::Nine | Rank::Blank => 0,
            Rank::Ten | Rank::Jack | Rank::Queen | Rank::King | Rank::Ace => -1,
        }
    }
}

/// The Omega II count.
#[derive(Debug, Copy, Clone)]
pub struct OmegaTwo;

impl StrategyFunc for OmegaTwo {
    fn to_string(&self) -> (text: String)
        ensures
            text@ == "Omega Two"@,
    {
        "Omega Two".to_owned()
    }
}

impl CountStrategy for OmegaTwo {
    open spec fn delta(&self, card: Card) -> i8 {
        omega_two_delta(card)
    }

    fn get_decision(&self, card: Card) -> (delta: i8) {
        match card.rank {
            Rank::Four | Rank::Five | Rank::Six => 2,
            Rank::Two | Rank::Three | Rank::Seven => 1,
            Rank::Eight | Rank::Ace | Rank::Blank => 0,
            Rank::Nine => -1,
            Rank::Ten | Rank::Jack | Rank::Queen | Rank::King => -2,
        }
    }
}

/// Insurance is never taken.
#[derive(Debug, Copy, Clone)]
pub struct NoInsurance;

impl StrategyFunc for NoInsurance {
    fn to_string(&self) -> (text: String)
        ensures
            text@ == "No Insurance"@,
    {
        "No Insurance".to_owned()
    }
}

impl InsuranceStrategy for NoInsurance {
    open spec fn takes(&self, state: GameStateView) -> bool {
        false
    }

    fn get_decision(&self, state: GameState) -> (take: bool) {
        false
    }
}

} // verus!
