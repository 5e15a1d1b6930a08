//! The two sides of the table.

use crate::betting_strategy::BetStrategy;
use crate::hand::{Hand, HandState, HandView};
use crate::playing_strategy::{
    CountStrategy, InsuranceStrategy, PlayStrategy, PlayerDecision,
};
use crate::GameState;
use vstd::prelude::*;

verus! {

/// Whether every hand of the row is finished.
pub open spec fn all_finished(hands: Seq<HandView>) -> bool {
    forall|i: int| 0 <= i < hands.len() ==> (#[trigger] hands[i]).is_finished()
}

/// The player: the hands held in this round and the four policies.
pub struct Player<P, B, C, I> {
    pub hands: Vec<Hand>,
    pub playing_strat: P,
    pub betting_strat: B,
    pub counting_strat: C,
    pub insurance_strat: I,
}

impl<P: PlayStrategy, B: BetStrategy, C: CountStrategy, I: InsuranceStrategy> Player<P, B, C, I> {
    /// A player who holds one empty hand with the given stake.
    pub fn new(
        init_bet: u32,
        playing_strat: P,
        betting_strat: B,
        counting_strat: C,
        insurance_strat: I,
    ) -> (player: Self)
        ensures
            player.hands@.len() == 1,
            player.hands@[0]@ == (HandView {
                cards: Seq::empty(),
                state: HandState::Init,
                init_bet,
                doubled: false,
                natural: false,
                split_child: false,
            }),
            player.playing_strat == playing_strat,
            player.betting_strat == betting_strat,
            player.counting_strat == counting_strat,
            player.insurance_strat == insurance_strat,
    {
        let mut hands: Vec<Hand> = Vec::new();
        hands.push(Hand::new(init_bet));
        Player { hands, playing_strat, betting_strat, counting_strat, insurance_strat }
    }

    /// The stake the bet policy asks for.
    pub fn decide_bet(&self, state: GameState) -> (bet: u32)
        requires
            state@.bets_in_limit(),
        ensures
            bet == self.betting_strat.stake(state@),
    {
        self.betting_strat.get_decision(state)
    }

    /// Whether the insurance policy takes insurance.
    pub fn decide_insurance(&self, state: GameState) -> (take: bool)
        requires
            state@.ready_to_play(),
        ensures
            take == self.insurance_strat.takes(state@),
    {
        self.insurance_strat.get_decision(state)
    }

    /// What the play policy does with the acting hand.
    pub fn decide_play(&self, state: GameState) -> (decision: PlayerDecision)
        requires
            state@.ready_to_play(),
        ensures
            decision == self.playing_strat.decision(state@),
    {
        self.playing_strat.get_decision(state)
    }

    /// Whether every hand is finished.
    pub fn is_finished(&self) -> (finished: bool)
        ensures
            finished == all_finished(crate::hand::views(self.hands@)),
    {
        let mut i: usize = 0;
        while i < self.hands.len()
            invariant
                i <= self.hands@.len(),
                forall|k: int| 0 <= k < i ==> (#[trigger] self.hands@[k])@.is_finished(),
            decreases self.hands@.len() - i,
        {
            if !self.hands[i].is_finished() {
                assert(!crate::hand::views(self.hands@)[i as int].is_finished());
                return false;
            }
            i += 1;
        }
        assert forall|k: int| 0 <= k < self.hands@.len() implies (#[trigger] crate::hand::views(
            self.hands@,
        )[k]).is_finished() by {
            assert(self.hands@[k]@.is_finished());
        }
        true
    }
}

/// The dealer: at most one hand, the total from which the dealer stands, and
/// the policy that plays the hand.
pub struct Dealer<D> {
    pub hand: Option<Hand>,
    pub cutoff: u8,
    pub strategy: D,
}

impl<D: PlayStrategy> Dealer<D> {
    /// A dealer without a hand.
    pub fn new(cutoff: u8, strategy: D) -> (dealer: Self)
        ensures
            dealer.hand is None,
            dealer.cutoff == cutoff,
            dealer.strategy == strategy,
    {
        Dealer { hand: None, cutoff, strategy }
    }

    /// What the dealer's policy does with the dealer's hand.
    pub fn decide_play(&self, state: GameState) -> (decision: PlayerDecision)
        requires
            state@.ready_to_play(),
        ensures
            decision == self.strategy.decision(state@),
    {
        self.strategy.get_decision(state)
    }

    /// Whether the dealer's hand is finished. The dealer must hold a hand.
    pub fn is_finished(&self) -> (finished: bool)
        requires
            self.hand is Some,
        ensures
            finished == (self.hand.unwrap().state == HandState::Finished),
    {
        match &self.hand {
            Some(hand) => hand.state == HandState::Finished,
            None => false,
        }
    }

    /// Sets the total from which the dealer stands.
    pub fn set_cutoff(&mut self, new_cutoff: u8)
        ensures
            final(self).cutoff == new_cutoff,
            final(self).hand == old(self).hand,
            final(self).strategy == old(self).strategy,
    {
        self.cutoff = new_cutoff;
    }
}

} // verus!
