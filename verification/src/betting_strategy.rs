//! The policies that choose the stake of the next round.

use crate::playing_strategy::StrategyFunc;
use crate::{GameState, GameStateView, Winner};
use vstd::prelude::*;

verus! {

/// A policy that chooses the stake of the next round from the base stake,
/// the last stake and the last round's winner.
pub trait BetStrategy: StrategyFunc {
    /// The stake the policy puts on the next round.
    spec fn stake(&self, state: GameStateView) -> u32;

    /// Chooses the stake of the next round.
    fn get_decision(&self, state: GameState) -> (bet: u32)
        requires
            state@.bets_in_limit(),
        ensures
            bet == self.stake(state@),
    ;
}

/// The stake of a martingale: twice the last stake after a round lost, the
/// base stake after a round won and before the first round, the last stake
/// again after a tie.
pub open spec fn martingale_stake(init_bet: u32, last_bet: u32, last_winner: Winner) -> int {
    match last_winner {
        Winner::Dealer => 2 * last_bet,
        Winner::Player => init_bet as int,
        Winner::Tie => last_bet as int,
        Winner::Nobody => init_bet as int,
    }
}

/// Every round at the base stake.
#[derive(Debug, Copy, Clone)]
pub struct ConstantBet;

impl StrategyFunc for ConstantBet {
    fn to_string(&self) -> (text: String)
        ensures
            text@ == "Constant Bet"@,
    {
        "Constant Bet".to_owned()
    }
}

impl BetStrategy for ConstantBet {
    open spec fn stake(&self, state: GameStateView) -> u32 {
        state.init_bet
    }

    fn get_decision(&self, state: GameState) -> (bet: u32) {
        state.init_bet
    }
}

/// A martingale: the stake doubles after every round lost, so that the first
/// round won makes up for the rounds lost before it.
#[derive(Debug, Copy, Clone)]
pub struct Martingale;

impl StrategyFunc for Martingale {
    fn to_string(&self) -> (text: String)
        ensures
            text@ == "Martingale"@,
    {
        "Martingale".to_owned()
    }
}

impl BetStrategy for Martingale {
    open spec fn stake(&self, state: GameStateView) -> u32 {
        martingale_stake(state.init_bet, state.last_bet, state.last_winner) as u32
    }

    fn get_decision(&self, state: GameState) -> (bet: u32) {
        match state.last_winner {
            Winner::Dealer => state.last_bet * 2,
            Winner::Player => state.init_bet,
            Winner::Tie => state.last_bet,
            Winner::Nobody => state.init_bet,
        }
    }
}

/// A martingale stakes twice the last stake after a round that the dealer
/// won, and the base stake after a round that the player won.
pub proof fn law_martingale_progression(state: GameStateView)
    requires
        state.bets_in_limit(),
    ensures
        state.last_winner == Winner::Dealer ==> Martingale.stake(state) == 2 * state.last_bet,
        state.last_winner == Winner::Player ==> Martingale.stake(state) == state.init_bet,
        state.last_winner == Winner::Tie ==> Martingale.stake(state) == state.last_bet,
        state.last_winner == Winner::Nobody ==> Martingale.stake(state) == state.init_bet,
{
}

/// The stake by the Kelly criterion. It is the base stake until the policy
/// has an estimate of the player's edge to go by.
pub fn kelly_criterion(state: GameState) -> (bet: u32)
    ensures
        bet == state.init_bet,
{
    state.init_bet
}

} // verus!
