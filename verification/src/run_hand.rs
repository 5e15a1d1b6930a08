//! One round from the deal to the result: the player's turn, the dealer's
//! turn, and who won each hand.

use crate::actions::{lemma_hit_is_sound, split_child};
use crate::betting_strategy::BetStrategy;
use crate::deck::{Card, Rank};
use crate::hand::{
    hard_total, lemma_hardened, lemma_totals, Hand, HandState, HandView, MAX_TOTAL_TO_DRAW,
};
use crate::participants::all_finished;
use crate::playing_strategy::{
    count_by, CountStrategy, InsuranceStrategy, PlayStrategy, PlayerDecision,
};
use crate::{EndState, Game, GameError, GameView, Winner, MAX_BET, MAX_HANDS};
use vstd::prelude::*;

verus! {

/// Who wins the player's hand against the dealer's, first rule first: a hand
/// given up loses; a dealer's natural beats any hand but a natural; a hand
/// over 21 loses; a dealer over 21 loses; equal totals tie; else the higher
/// total wins.
pub open spec fn hand_winner(player: HandView, dealer: HandView) -> Winner {
    if player.is_surrendered() {
        Winner::Dealer
    } else if dealer.natural && !player.natural {
        Winner::Dealer
    } else if player.total() > 21 {
        Winner::Dealer
    } else if dealer.total() > 21 {
        Winner::Player
    } else if player.total() == dealer.total() {
        Winner::Tie
    } else if player.total() > dealer.total() {
        Winner::Player
    } else {
        Winner::Dealer
    }
}

/// What is kept of a hand for its payoff.
pub open spec fn hand_end_state(player: HandView, dealer: HandView, bet: u32) -> EndState {
    EndState {
        hand_bet: bet,
        magnitude_bet_inc: 0,
        p_natural: player.natural,
        p_insurance: false,
        p_doubled: player.doubled,
        p_bust: player.total() > 21,
        p_surrender_early: player.state == HandState::EarlySurrender,
        p_surrender_late: player.state == HandState::LateSurrender,
        d_natural: dealer.natural,
        d_bust: dealer.total() > 21,
    }
}

/// The result of one hand of the player against the dealer's hand.
pub open spec fn resolution(player: HandView, dealer: HandView, bet: u32) -> (Winner, EndState) {
    (hand_winner(player, dealer), hand_end_state(player, dealer, bet))
}

/// Whether `results` are the results of the hands, in their order.
pub open spec fn resolves(
    results: Seq<(Winner, EndState)>,
    hands: Seq<HandView>,
    dealer: HandView,
    bet: u32,
) -> bool {
    &&& results.len() == hands.len()
    &&& forall|i: int|
        0 <= i < hands.len() ==> #[trigger] results[i] == resolution(hands[i], dealer, bet)
}

/// The number of results won by `who`.
pub open spec fn wins_of(results: Seq<(Winner, EndState)>, who: Winner) -> nat
    decreases results.len(),
{
    if results.len() == 0 {
        0
    } else {
        wins_of(results.drop_last(), who) + if results.last().0 == who {
            1nat
        } else {
            0nat
        }
    }
}

/// Who won the round: nobody where no hand was played; the winner of the
/// hand where there was one hand; and after a split the side that won more
/// hands, or a tie where both won as many.
pub open spec fn round_winner(results: Seq<(Winner, EndState)>) -> Winner {
    if results.len() == 0 {
        Winner::Nobody
    } else if results.len() == 1 {
        results[0].0
    } else if wins_of(results, Winner::Player) > wins_of(results, Winner::Dealer) {
        Winner::Player
    } else if wins_of(results, Winner::Player) == wins_of(results, Winner::Dealer) {
        Winner::Tie
    } else {
        Winner::Dealer
    }
}

/// A dealer's natural beats every hand that is not a natural itself, such
/// as a hand of 20.
pub proof fn law_dealer_natural_wins(player: HandView, dealer: HandView, bet: u32)
    requires
        dealer.natural,
        !player.natural,
    ensures
        resolution(player, dealer, bet).0 == Winner::Dealer,
        resolution(player, dealer, bet).1.d_natural,
        !resolution(player, dealer, bet).1.p_natural,
{
}

/// Two naturals tie, unless the player gave the hand up.
pub proof fn law_two_naturals_tie(player: HandView, dealer: HandView, bet: u32)
    requires
        player.natural,
        dealer.natural,
        player.total() == 21,
        dealer.total() == 21,
        !player.is_surrendered(),
    ensures
        resolution(player, dealer, bet).0 == Winner::Tie,
{
}

/// A hand over 21 loses, whatever the dealer holds or goes on to draw.
pub proof fn law_bust_loses(player: HandView, dealer: HandView, bet: u32)
    requires
        player.total() > 21,
    ensures
        resolution(player, dealer, bet).0 == Winner::Dealer,
        resolution(player, dealer, bet).1.p_bust,
{
}

/// A hand given up loses, whatever either side holds.
pub proof fn law_surrender_loses(player: HandView, dealer: HandView, bet: u32)
    requires
        player.is_surrendered(),
    ensures
        resolution(player, dealer, bet).0 == Winner::Dealer,
        resolution(player, dealer, bet).1.p_surrender_early || resolution(
            player,
            dealer,
            bet,
        ).1.p_surrender_late,
{
}

/// The result of one hand of the player against the dealer's hand.
pub fn resolve_hand(player: &Hand, dealer: &Hand, bet: u32) -> (outcome: (Winner, EndState))
    requires
        player@.sound(),
        dealer@.sound(),
    ensures
        outcome == resolution(player@, dealer@, bet),
{
    let mut winner: Option<Winner> = None;
    let mut end_state = EndState::default();
    end_state.hand_bet = bet;
    if player.doubled {
        end_state.p_doubled = true;
    }
    if player.natural {
        end_state.p_natural = true;
    }
    if player.is_surrendered() {
        match player.state {
            HandState::EarlySurrender => {
                end_state.p_surrender_early = true;
            },
            _ => {
                end_state.p_surrender_late = true;
            },
        }
        winner = Some(Winner::Dealer);
    }
    if dealer.natural {
        end_state.d_natural = true;
        if !player.natural && winner.is_none() {
            winner = Some(Winner::Dealer);
        }
    }
    // The player goes over 21 before the dealer draws, so the hand is lost
    // even where the dealer goes over 21 as well.
    let player_total: u8 = player.value();
    let dealer_total: u8 = dealer.value();
    if player_total > 21 {
        end_state.p_bust = true;
        if winner.is_none() {
            winner = Some(Winner::Dealer);
        }
    }
    if dealer_total > 21 {
        end_state.d_bust = true;
        if winner.is_none() {
            winner = Some(Winner::Player);
        }
    }
    match winner {
        Some(winner) => (winner, end_state),
        None => {
            if player_total == dealer_total {
                (Winner::Tie, end_state)
            } else if player_total > dealer_total {
                (Winner::Player, end_state)
            } else {
                (Winner::Dealer, end_state)
            }
        },
    }
}

/// Who won the round, from the results of its hands.
pub fn determine_last_winner(hand_results: &Vec<(Winner, EndState)>) -> (winner: Winner)
    requires
        hand_results@.len() <= MAX_HANDS,
    ensures
        winner == round_winner(hand_results@),
{
    if hand_results.len() == 0 {
        return Winner::Nobody;
    }
    if hand_results.len() == 1 {
        return hand_results[0].0;
    }
    let mut num_player_wins: u8 = 0;
    let mut num_dealer_wins: u8 = 0;
    let mut i: usize = 0;
    while i < hand_results.len()
        invariant
            i <= hand_results@.len(),
            hand_results@.len() <= MAX_HANDS,
            num_player_wins == wins_of(hand_results@.take(i as int), Winner::Player),
            num_dealer_wins == wins_of(hand_results@.take(i as int), Winner::Dealer),
            num_player_wins <= i,
            num_dealer_wins <= i,
        decreases hand_results@.len() - i,
    {
        proof {
            assert(hand_results@.take(i + 1).drop_last() =~= hand_results@.take(i as int));
        }
        match hand_results[i].0 {
            Winner::Player => {
                num_player_wins += 1;
            },
            Winner::Dealer => {
                num_dealer_wins += 1;
            },
            _ => {},
        }
        i += 1;
    }
    assert(hand_results@.take(i as int) =~= hand_results@);
    if num_player_wins > num_dealer_wins {
        Winner::Player
    } else if num_player_wins == num_dealer_wins {
        Winner::Tie
    } else {
        Winner::Dealer
    }
}

/// What is left to do on a hand, as a number that every move on the hand
/// makes smaller: nothing on a finished hand; else the room that its hard
/// total leaves.
pub open spec fn hand_weight(hand: HandView) -> nat {
    if hand.is_finished() || hard_total(hand.cards) >= 256 {
        0
    } else {
        (256 - hard_total(hand.cards)) as nat
    }
}

/// What is left to do on the dealer's hand, likewise. The dealer's hand is
/// done only when it is finished.
pub open spec fn dealer_weight(hand: HandView) -> nat {
    if hand.state == HandState::Finished || hard_total(hand.cards) >= 256 {
        0
    } else {
        (256 - hard_total(hand.cards)) as nat
    }
}

/// What is left to do on a row of hands.
pub open spec fn pending(hands: Seq<HandView>) -> nat
    decreases hands.len(),
{
    if hands.len() == 0 {
        0
    } else {
        pending(hands.drop_last()) + hand_weight(hands.last())
    }
}

/// Changing one hand changes what is left to do by the change on that hand.
pub proof fn lemma_pending_update(hands: Seq<HandView>, i: int, hand: HandView)
    requires
        0 <= i < hands.len(),
    ensures
        pending(hands.update(i, hand)) == pending(hands) - hand_weight(hands[i]) + hand_weight(
            hand,
        ),
        pending(hands) >= hand_weight(hands[i]),
    decreases hands.len(),
{
    if i == hands.len() - 1 {
        assert(hands.update(i, hand).drop_last() =~= hands.drop_last());
    } else {
        lemma_pending_update(hands.drop_last(), i, hand);
        assert(hands.update(i, hand).drop_last() =~= hands.drop_last().update(i, hand));
    }
}

/// A card taken by a sound hand in play leaves less to do on it.
pub proof fn lemma_hit_weighs_less(hand: HandView, card: Card)
    requires
        hand.total() <= MAX_TOTAL_TO_DRAW,
        card.rank != Rank::Blank,
    ensures
        hard_total(hand.hit(card).cards) == hard_total(hand.cards) + card.hard_points(),
        hard_total(hand.cards.push(card)) == hard_total(hand.cards) + card.hard_points(),
        card.hard_points() >= 1,
        hard_total(hand.hit(card).cards) <= 255,
        !hand.is_finished() ==> hand_weight(hand.hit(card)) < hand_weight(hand),
        hand.state != HandState::Finished ==> dealer_weight(hand.hit(card)) < dealer_weight(hand),
{
    let cards = hand.cards.push(card);
    assert(cards.drop_last() =~= hand.cards);
    lemma_hardened(cards);
    lemma_totals(cards, 0);
    lemma_totals(hand.cards, 0);
    lemma_totals(hand.hit(card).cards, 0);
    lemma_hit_is_sound(hand, card);
}

impl GameView {
    /// Whether a round has been dealt: every hand of the player holds at
    /// least two cards, and so does the dealer's.
    pub open spec fn dealt(&self) -> bool {
        &&& forall|i: int| 0 <= i < self.hands.len() ==> (#[trigger] self.hands[i]).cards.len() >= 2
        &&& self.dealer_hand matches Some(hand) && hand.cards.len() >= 2
    }

    /// Why the move cannot be made on the hand at `index`, if it cannot: a
    /// card cannot go to a hand whose total leaves no room for one; a split
    /// needs two cards of one rank, and room for one more hand.
    pub open spec fn move_error(&self, index: int, decision: PlayerDecision) -> Option<GameError> {
        match decision {
            PlayerDecision::Hit | PlayerDecision::Double => if self.hands[index].total()
                > MAX_TOTAL_TO_DRAW {
                Some(GameError::HandFull)
            } else {
                None
            },
            PlayerDecision::Split => if !self.hands[index].is_pair() {
                Some(GameError::InvalidSplit)
            } else if self.hands.len() >= MAX_HANDS {
                Some(GameError::TooManyHands)
            } else {
                None
            },
            _ => None,
        }
    }

    /// Whether `post` is this game after the move on the hand at `index`,
    /// with the cards drawn counted as `delta` says.
    pub open spec fn moves(
        &self,
        post: GameView,
        index: int,
        decision: PlayerDecision,
        delta: spec_fn(Card) -> i8,
    ) -> bool {
        let hand = self.hands[index];
        match decision {
            PlayerDecision::Stand => post == (GameView {
                hands: self.hands.update(index, (HandView { state: HandState::Finished, ..hand })),
                ..*self
            }),
            PlayerDecision::EarlySurrender => post == (GameView {
                hands: self.hands.update(
                    index,
                    (HandView { state: HandState::EarlySurrender, ..hand }),
                ),
                ..*self
            }),
            PlayerDecision::LateSurrender => post == (GameView {
                hands: self.hands.update(
                    index,
                    (HandView { state: HandState::LateSurrender, ..hand }),
                ),
                ..*self
            }),
            PlayerDecision::Hit => {
                let card = post.played.last();
                &&& self.draws(post.with_table_of(*self), card, delta(card))
                &&& post.hands == self.hands.update(index, hand.hit(card))
                &&& post.dealer_hand == self.dealer_hand
            },
            PlayerDecision::Double => {
                let card = post.played.last();
                &&& self.draws(post.with_table_of(*self), card, delta(card))
                &&& post.hands == self.hands.update(
                    index,
                    (HandView {
                        cards: hand.cards.push(card),
                        doubled: true,
                        state: HandState::Finished,
                        ..hand
                    }),
                )
                &&& post.dealer_hand == self.dealer_hand
            },
            PlayerDecision::Split => {
                let first = post.hands[post.hands.len() - 2].cards[1];
                let second = post.hands[post.hands.len() - 1].cards[1];
                &&& self.draws_all(post.with_table_of(*self), seq![first, second], delta)
                &&& post.hands == self.hands.remove(index).push(
                    split_child(hand.cards[1], first, hand.init_bet),
                ).push(split_child(hand.cards[0], second, hand.init_bet))
                &&& post.dealer_hand == self.dealer_hand
            },
        }
    }

    /// Whether less is left to do in `post` than in this game: the player
    /// holds more hands, of which there is a limit, or as many with less
    /// left to do on them.
    pub open spec fn nearer_the_end(&self, post: GameView) -> bool {
        post.hands.len() > self.hands.len() || (post.hands.len() == self.hands.len() && pending(
            post.hands,
        ) < pending(self.hands))
    }

    /// The game with the hand at `index` marked as a natural where it is
    /// one.
    pub open spec fn natural_marked(&self, index: int) -> GameView {
        if self.hands[index].is_natural() {
            GameView {
                hands: self.hands.update(
                    index,
                    (HandView { natural: true, ..self.hands[index] }),
                ),
                ..*self
            }
        } else {
            *self
        }
    }

    /// The game with the dealer's hand marked as a natural where it is one.
    pub open spec fn dealer_natural_marked(&self) -> GameView {
        match self.dealer_hand {
            Some(hand) => if hand.is_natural() {
                GameView { dealer_hand: Some(HandView { natural: true, ..hand }), ..*self }
            } else {
                *self
            },
            None => *self,
        }
    }

    /// Why the dealer cannot make the move, if the dealer cannot: a card
    /// cannot go to a hand whose total leaves no room for one, and the
    /// dealer does nothing but take a card or stand.
    pub open spec fn dealer_move_error(&self, decision: PlayerDecision) -> Option<GameError> {
        match decision {
            PlayerDecision::Hit => if self.dealer_hand.unwrap().total() > MAX_TOTAL_TO_DRAW {
                Some(GameError::HandFull)
            } else {
                None
            },
            PlayerDecision::Stand => None,
            _ => Some(GameError::DealerDecision),
        }
    }

    /// Whether `post` is this game after the dealer's move, with the card
    /// drawn counted as `delta` says: a card taken as any hand takes one, or
    /// the hand finished.
    pub open spec fn dealer_moves(
        &self,
        post: GameView,
        decision: PlayerDecision,
        delta: spec_fn(Card) -> i8,
    ) -> bool {
        let hand = self.dealer_hand.unwrap();
        match decision {
            PlayerDecision::Hit => {
                let card = post.played.last();
                &&& self.draws(post.with_table_of(*self), card, delta(card))
                &&& post.hands == self.hands
                &&& post.dealer_hand == Some(hand.hit(card))
            },
            PlayerDecision::Stand => post == (GameView {
                dealer_hand: Some(HandView { state: HandState::Finished, ..hand }),
                ..*self
            }),
            _ => false,
        }
    }

    /// Whether every finished hand of the player in this game is a hand of
    /// the player in `post`, as it was.
    pub open spec fn keeps_finished_hands(&self, post: GameView) -> bool {
        forall|hand: HandView|
            #[trigger] self.hands.contains(hand) && hand.is_finished() ==> post.hands.contains(
                hand,
            )
    }
}

/// The error that ended a round, if one did.
pub open spec fn error_of<T>(outcome: Result<T, GameError>) -> Option<GameError> {
    match outcome {
        Ok(_) => None,
        Err(error) => Some(error),
    }
}

/// Whether `post` is `pre` after one step on the player's hand at `index`,
/// with `outcome` as its answer. A finished hand is left alone. Else the
/// hand is marked as a natural where it is one, the play policy is shown
/// the game with this hand acting, and its move is made; where the move
/// cannot be made the step ends with the reason, and the game stays as it
/// was marked.
pub open spec fn player_step<P: PlayStrategy>(
    pre: GameView,
    post: GameView,
    index: int,
    policy: P,
    delta: spec_fn(Card) -> i8,
    outcome: Result<bool, GameError>,
) -> bool {
    if pre.hands[index].is_finished() {
        outcome == Ok::<bool, GameError>(false) && post == pre
    } else {
        let marked = pre.natural_marked(index);
        let decision = policy.decision(marked.snapshot(Some(marked.hands[index])));
        match outcome {
            Ok(split) => {
                &&& marked.move_error(index, decision) is None
                &&& split == (decision == PlayerDecision::Split)
                &&& marked.moves(post, index, decision, delta)
            },
            Err(error) => marked.move_error(index, decision) == Some(error) && post == marked,
        }
    }
}

/// Whether `post` is `pre` after the rest of a pass over the player's hands:
/// a step on each hand from `index` up to `end`, in their order. A hand that
/// is split leaves the row, so that the next hand takes its place, and the
/// two hands that come of it stand behind `end` and wait for the next pass.
/// The pass stops at the first step that ends with an error, which is then
/// `error`.
pub open spec fn pass_plays<P: PlayStrategy>(
    pre: GameView,
    post: GameView,
    index: int,
    end: int,
    policy: P,
    delta: spec_fn(Card) -> i8,
    error: Option<GameError>,
) -> bool
    decreases end - index,
{
    if index >= end {
        post == pre && error is None
    } else {
        exists|mid: GameView, outcome: Result<bool, GameError>|
            #![trigger player_step(pre, mid, index, policy, delta, outcome)]
            player_step(pre, mid, index, policy, delta, outcome) && match outcome {
                Ok(split) => pass_plays(
                    mid,
                    post,
                    if split {
                        index
                    } else {
                        index + 1
                    },
                    if split {
                        end - 1
                    } else {
                        end
                    },
                    policy,
                    delta,
                    error,
                ),
                Err(stopped) => post == mid && error == Some(stopped),
            }
    }
}

/// Whether `post` is `pre` after the player's turn, in `passes` passes at
/// most: pass after pass over all the hands on the table until every hand
/// is finished, or until a pass stops with an error, which is then `error`.
pub open spec fn player_turn<P: PlayStrategy>(
    pre: GameView,
    post: GameView,
    policy: P,
    delta: spec_fn(Card) -> i8,
    error: Option<GameError>,
    passes: nat,
) -> bool
    decreases passes,
{
    if all_finished(pre.hands) {
        post == pre && error is None
    } else if passes == 0 {
        false
    } else {
        exists|mid: GameView, stopped: Option<GameError>|
            #![trigger pass_plays(pre, mid, 0, pre.hands.len() as int, policy, delta, stopped)]
            pass_plays(pre, mid, 0, pre.hands.len() as int, policy, delta, stopped)
                && match stopped {
                Some(_) => post == mid && error == stopped,
                None => player_turn(mid, post, policy, delta, error, (passes - 1) as nat),
            }
    }
}

/// Whether `post` is `pre` after one step on the dealer's hand, with
/// `outcome` as its answer. A finished hand is left alone. Else the hand is
/// marked as a natural where it is one, the dealer's policy is shown the
/// game with the dealer's hand acting, and its move is made; where the move
/// cannot be made the step ends with the reason, and the game stays as it
/// was marked.
pub open spec fn dealer_step<D: PlayStrategy>(
    pre: GameView,
    post: GameView,
    policy: D,
    delta: spec_fn(Card) -> i8,
    outcome: Result<(), GameError>,
) -> bool {
    if pre.dealer_hand.unwrap().state == HandState::Finished {
        outcome is Ok && post == pre
    } else {
        let marked = pre.dealer_natural_marked();
        let decision = policy.decision(marked.snapshot(marked.dealer_hand));
        match outcome {
            Ok(_) => marked.dealer_move_error(decision) is None && marked.dealer_moves(
                post,
                decision,
                delta,
            ),
            Err(error) => marked.dealer_move_error(decision) == Some(error) && post == marked,
        }
    }
}

/// Whether `post` is `pre` after the dealer's turn, in `steps` steps at
/// most: step after step until the dealer's hand is finished, or until a
/// step ends with an error, which is then `error`.
pub open spec fn dealer_turn<D: PlayStrategy>(
    pre: GameView,
    post: GameView,
    policy: D,
    delta: spec_fn(Card) -> i8,
    error: Option<GameError>,
    steps: nat,
) -> bool
    decreases steps,
{
    if pre.dealer_hand.unwrap().state == HandState::Finished {
        post == pre && error is None
    } else if steps == 0 {
        false
    } else {
        exists|mid: GameView, outcome: Result<(), GameError>|
            #![trigger dealer_step(pre, mid, policy, delta, outcome)]
            dealer_step(pre, mid, policy, delta, outcome) && match outcome {
                Ok(_) => dealer_turn(mid, post, policy, delta, error, (steps - 1) as nat),
                Err(stopped) => post == mid && error == Some(stopped),
            }
    }
}

/// Whether `post` is `pre` after the dealer's turn and, where the turn
/// ended without an error, the naming of the round's winner.
pub open spec fn dealer_plays<D: PlayStrategy>(
    pre: GameView,
    post: GameView,
    policy: D,
    delta: spec_fn(Card) -> i8,
    error: Option<GameError>,
) -> bool {
    exists|done: GameView, steps: nat|
        #![trigger dealer_turn(pre, done, policy, delta, error, steps)]
        dealer_turn(pre, done, policy, delta, error, steps) && if error is Some {
            post == done
        } else {
            post == (GameView { last_winner: post.last_winner, ..done })
        }
}

/// Whether `post` is `pre` after the round that was dealt in `pre`, ended
/// by `error` if by any. A stake over the table limit ends the round at
/// once. Else the stake of the dealer's hand is the round's stake; the
/// player's turn comes first, then, if it ended without an error, the
/// dealer's turn; and the round's winner is named.
pub open spec fn round_plays<P: PlayStrategy, D: PlayStrategy>(
    pre: GameView,
    post: GameView,
    player: P,
    dealer: D,
    delta: spec_fn(Card) -> i8,
    error: Option<GameError>,
) -> bool {
    let stake = pre.dealer_hand.unwrap().init_bet;
    let started = GameView { last_bet: stake, ..pre };
    if stake > MAX_BET {
        post == pre && error == Some(GameError::BetOverLimit)
    } else {
        exists|played: GameView, stopped: Option<GameError>, passes: nat|
            #![trigger player_turn(started, played, player, delta, stopped, passes)]
            player_turn(started, played, player, delta, stopped, passes) && match stopped {
                Some(_) => post == played && error == stopped,
                None => dealer_plays(played, post, dealer, delta, error),
            }
    }
}

/// A step that was made, and the rest of the pass after it, are the rest of
/// the pass from that step on.
pub proof fn lemma_pass_after_step<P: PlayStrategy>(
    pre: GameView,
    mid: GameView,
    post: GameView,
    index: int,
    end: int,
    policy: P,
    delta: spec_fn(Card) -> i8,
    split: bool,
    error: Option<GameError>,
)
    requires
        index < end,
        player_step(pre, mid, index, policy, delta, Ok(split)),
        pass_plays(
            mid,
            post,
            if split {
                index
            } else {
                index + 1
            },
            if split {
                end - 1
            } else {
                end
            },
            policy,
            delta,
            error,
        ),
    ensures
        pass_plays(pre, post, index, end, policy, delta, error),
{
}

/// A step that ends with an error ends the pass with it.
pub proof fn lemma_pass_stops<P: PlayStrategy>(
    pre: GameView,
    mid: GameView,
    index: int,
    end: int,
    policy: P,
    delta: spec_fn(Card) -> i8,
    error: GameError,
)
    requires
        index < end,
        player_step(pre, mid, index, policy, delta, Err(error)),
    ensures
        pass_plays(pre, mid, index, end, policy, delta, Some(error)),
{
}

/// A pass that was made, and the rest of the turn after it, are the turn.
pub proof fn lemma_turn_after_pass<P: PlayStrategy>(
    pre: GameView,
    mid: GameView,
    post: GameView,
    policy: P,
    delta: spec_fn(Card) -> i8,
    error: Option<GameError>,
    passes: nat,
)
    requires
        !all_finished(pre.hands),
        pass_plays(pre, mid, 0, pre.hands.len() as int, policy, delta, None),
        player_turn(mid, post, policy, delta, error, passes),
    ensures
        player_turn(pre, post, policy, delta, error, passes + 1),
{
    assert((passes + 1 - 1) as nat == passes);
}

/// A pass that stops with an error ends the turn with it.
pub proof fn lemma_turn_stops<P: PlayStrategy>(
    pre: GameView,
    mid: GameView,
    policy: P,
    delta: spec_fn(Card) -> i8,
    error: GameError,
    passes: nat,
)
    requires
        !all_finished(pre.hands),
        pass_plays(pre, mid, 0, pre.hands.len() as int, policy, delta, Some(error)),
    ensures
        player_turn(pre, mid, policy, delta, Some(error), passes + 1),
{
}

/// A step of the dealer that was made, and the rest of the dealer's turn
/// after it, are the dealer's turn.
pub proof fn lemma_dealer_turn_after_step<D: PlayStrategy>(
    pre: GameView,
    mid: GameView,
    post: GameView,
    policy: D,
    delta: spec_fn(Card) -> i8,
    error: Option<GameError>,
    steps: nat,
)
    requires
        pre.dealer_hand.unwrap().state != HandState::Finished,
        dealer_step(pre, mid, policy, delta, Ok(())),
        dealer_turn(mid, post, policy, delta, error, steps),
    ensures
        dealer_turn(pre, post, policy, delta, error, steps + 1),
{
    assert((steps + 1 - 1) as nat == steps);
}

/// A step of the dealer that ends with an error ends the dealer's turn with
/// it.
pub proof fn lemma_dealer_turn_stops<D: PlayStrategy>(
    pre: GameView,
    mid: GameView,
    policy: D,
    delta: spec_fn(Card) -> i8,
    error: GameError,
    steps: nat,
)
    requires
        pre.dealer_hand.unwrap().state != HandState::Finished,
        dealer_step(pre, mid, policy, delta, Err(error)),
    ensures
        dealer_turn(pre, mid, policy, delta, Some(error), steps + 1),
{
}

/// A round in which every hand of the player and the dealer's hand are
/// finished when it begins, at a stake within the table limit, asks no
/// policy and draws no card: it ends without an error, and nothing but the
/// last stake and the last winner has changed.
pub proof fn law_round_of_finished_hands<P: PlayStrategy, D: PlayStrategy>(
    pre: GameView,
    post: GameView,
    player: P,
    dealer: D,
    delta: spec_fn(Card) -> i8,
    error: Option<GameError>,
)
    requires
        round_plays(pre, post, player, dealer, delta, error),
        all_finished(pre.hands),
        pre.dealer_hand.unwrap().state == HandState::Finished,
        pre.dealer_hand.unwrap().init_bet <= MAX_BET,
    ensures
        error is None,
        post == (GameView {
            last_bet: pre.dealer_hand.unwrap().init_bet,
            last_winner: post.last_winner,
            ..pre
        }),
{
}

/// A player's turn that stops with an error ends the round with it.
pub proof fn lemma_round_stops_in_player_turn<P: PlayStrategy, D: PlayStrategy>(
    pre: GameView,
    post: GameView,
    player: P,
    dealer: D,
    delta: spec_fn(Card) -> i8,
    error: GameError,
    passes: nat,
)
    requires
        pre.dealer_hand.unwrap().init_bet <= MAX_BET,
        player_turn(
            (GameView { last_bet: pre.dealer_hand.unwrap().init_bet, ..pre }),
            post,
            player,
            delta,
            Some(error),
            passes,
        ),
    ensures
        round_plays(pre, post, player, dealer, delta, Some(error)),
        !all_finished(pre.hands),
{
}

/// Whether the player's turn of the round that began in `pre` ended in
/// `played` without an error. The fact is carried through the dealer's turn
/// unopened.
#[verifier::opaque]
pub open spec fn player_turn_over<P: PlayStrategy>(
    pre: GameView,
    played: GameView,
    policy: P,
    delta: spec_fn(Card) -> i8,
    passes: nat,
) -> bool {
    &&& pre.dealer_hand.unwrap().init_bet <= MAX_BET
    &&& player_turn(
        (GameView { last_bet: pre.dealer_hand.unwrap().init_bet, ..pre }),
        played,
        policy,
        delta,
        None,
        passes,
    )
}

/// A player's turn without an error and the dealer's turn after it are the
/// round, once the winner is named where the dealer's turn had no error
/// either.
pub proof fn lemma_round_ends<P: PlayStrategy, D: PlayStrategy>(
    pre: GameView,
    played: GameView,
    done: GameView,
    post: GameView,
    player: P,
    dealer: D,
    delta: spec_fn(Card) -> i8,
    error: Option<GameError>,
    passes: nat,
    steps: nat,
)
    requires
        player_turn_over(pre, played, player, delta, passes),
        dealer_turn(played, done, dealer, delta, error, steps),
        error is Some ==> post == done,
        error is None ==> post == (GameView { last_winner: post.last_winner, ..done }),
    ensures
        round_plays(pre, post, player, dealer, delta, error),
{
    reveal(player_turn_over);
    assert(dealer_plays(played, post, dealer, delta, error));
}

/// A change to an unfinished hand keeps every finished hand of the row.
pub proof fn lemma_update_keeps_finished(pre: GameView, post: GameView, index: int, hand: HandView)
    requires
        0 <= index < pre.hands.len(),
        !pre.hands[index].is_finished(),
        post.hands == pre.hands.update(index, hand),
    ensures
        pre.keeps_finished_hands(post),
{
    assert forall|kept: HandView| #[trigger]
        pre.hands.contains(kept) && kept.is_finished() implies post.hands.contains(kept) by {
        let k = choose|k: int| 0 <= k < pre.hands.len() && pre.hands[k] == kept;
        assert(post.hands[k] == kept);
    }
}

/// A split of an unfinished hand keeps every finished hand of the row.
pub proof fn lemma_split_keeps_finished(
    pre: GameView,
    post: GameView,
    index: int,
    first: HandView,
    second: HandView,
)
    requires
        0 <= index < pre.hands.len(),
        !pre.hands[index].is_finished(),
        post.hands == pre.hands.remove(index).push(first).push(second),
    ensures
        pre.keeps_finished_hands(post),
{
    assert forall|kept: HandView| #[trigger]
        pre.hands.contains(kept) && kept.is_finished() implies post.hands.contains(kept) by {
        let k = choose|k: int| 0 <= k < pre.hands.len() && pre.hands[k] == kept;
        if k < index {
            assert(post.hands[k] == kept);
        } else {
            assert(post.hands[k - 1] == kept);
        }
    }
}

impl<P: PlayStrategy, D: PlayStrategy, B: BetStrategy, C: CountStrategy, I: InsuranceStrategy> Game<
    P,
    D,
    B,
    C,
    I,
> {
    /// Whether the hand is a natural: two cards that total 21, not out of a
    /// split.
    pub fn natural_check(&self, hand: &Hand) -> (natural: bool)
        ensures
            natural == hand@.is_natural(),
    {
        if hand.cards.len() == 2 && !hand.split_child {
            proof {
                lemma_totals(hand.cards@, 0);
            }
            hand.value() == 21
        } else {
            false
        }
    }

    /// Makes the move on the player's hand at `index`, or says why it
    /// cannot be made and leaves the game as it is. The answer is whether
    /// the hand was split, so that two new hands stand at the end of the row
    /// in its place.
    #[verifier::rlimit(40)]
    pub fn apply_decision(&mut self, index: usize, decision: PlayerDecision) -> (split: Result<
        bool,
        GameError,
    >)
        requires
            old(self)@.wf(),
            old(self)@.dealt(),
            index < old(self)@.hands.len(),
        ensures
            match split {
                Ok(split) => {
                    &&& old(self)@.move_error(index as int, decision) is None
                    &&& split == (decision == PlayerDecision::Split)
                    &&& old(self)@.moves(
                        final(self)@,
                        index as int,
                        decision,
                        count_by(final(self).player.counting_strat),
                    )
                    &&& !old(self)@.hands[index as int].is_finished() ==> old(self)@.nearer_the_end(
                        final(self)@,
                    )
                },
                Err(error) => {
                    &&& old(self)@.move_error(index as int, decision) == Some(error)
                    &&& final(self)@ == old(self)@
                },
            },
            old(self)@.same_rules(final(self)@),
            final(self).same_policies(old(self)),
            final(self)@.wf(),
            old(self).tallied() ==> final(self).tallied(),
            old(self)@.draws_some(final(self)@, count_by(final(self).player.counting_strat)),
            !old(self)@.hands[index as int].is_finished() ==> old(self)@.keeps_finished_hands(
                final(self)@,
            ),
            final(self)@.dealt(),
            final(self)@.hands.len() >= old(self)@.hands.len(),
    {
        let ghost hand = self@.hands[index as int];
        let ghost delta = count_by(self.player.counting_strat);
        proof {
            old(self)@.lemma_draws_none(delta);
            assert(old(self)@.with_round_of(old(self)@) == old(self)@);
        }
        match decision {
            PlayerDecision::Stand => {
                self.stand_player(index);
                proof {
                    assert(self@.with_round_of(old(self)@) == old(self)@);
                    lemma_pending_update(
                        old(self)@.hands,
                        index as int,
                        (HandView { state: HandState::Finished, ..hand }),
                    );
                    lemma_totals(hand.cards, 0);
                    if !hand.is_finished() {
                        lemma_update_keeps_finished(
                            old(self)@,
                            self@,
                            index as int,
                            (HandView { state: HandState::Finished, ..hand }),
                        );
                    }
                }
                Ok(false)
            },
            PlayerDecision::EarlySurrender => {
                self.surrender(index, HandState::EarlySurrender);
                proof {
                    assert(self@.with_round_of(old(self)@) == old(self)@);
                    lemma_pending_update(
                        old(self)@.hands,
                        index as int,
                        (HandView { state: HandState::EarlySurrender, ..hand }),
                    );
                    lemma_totals(hand.cards, 0);
                    if !hand.is_finished() {
                        lemma_update_keeps_finished(
                            old(self)@,
                            self@,
                            index as int,
                            (HandView { state: HandState::EarlySurrender, ..hand }),
                        );
                    }
                }
                Ok(false)
            },
            PlayerDecision::LateSurrender => {
                self.surrender(index, HandState::LateSurrender);
                proof {
                    assert(self@.with_round_of(old(self)@) == old(self)@);
                    lemma_pending_update(
                        old(self)@.hands,
                        index as int,
                        (HandView { state: HandState::LateSurrender, ..hand }),
                    );
                    lemma_totals(hand.cards, 0);
                    if !hand.is_finished() {
                        lemma_update_keeps_finished(
                            old(self)@,
                            self@,
                            index as int,
                            (HandView { state: HandState::LateSurrender, ..hand }),
                        );
                    }
                }
                Ok(false)
            },
            PlayerDecision::Hit => {
                if self.player.hands[index].value() > MAX_TOTAL_TO_DRAW {
                    return Err(GameError::HandFull);
                }
                self.hit_player(index);
                proof {
                    let card = self@.played.last();
                    assert(self@.with_round_of(old(self)@) == self@.with_table_of(old(self)@));
                    old(self)@.lemma_draws_one_more(
                        old(self)@,
                        self@.with_table_of(old(self)@),
                        Seq::empty(),
                        card,
                        delta,
                    );
                    lemma_pending_update(old(self)@.hands, index as int, hand.hit(card));
                    lemma_hit_weighs_less(hand, card);
                    if !hand.is_finished() {
                        lemma_update_keeps_finished(
                            old(self)@,
                            self@,
                            index as int,
                            hand.hit(card),
                        );
                    }
                }
                Ok(false)
            },
            PlayerDecision::Double => {
                if self.player.hands[index].value() > MAX_TOTAL_TO_DRAW {
                    return Err(GameError::HandFull);
                }
                self.double_hand(index);
                proof {
                    let card = self@.played.last();
                    assert(self@.with_round_of(old(self)@) == self@.with_table_of(old(self)@));
                    old(self)@.lemma_draws_one_more(
                        old(self)@,
                        self@.with_table_of(old(self)@),
                        Seq::empty(),
                        card,
                        delta,
                    );
                    lemma_pending_update(
                        old(self)@.hands,
                        index as int,
                        (HandView {
                            cards: hand.cards.push(card),
                            doubled: true,
                            state: HandState::Finished,
                            ..hand
                        }),
                    );
                    lemma_totals(hand.cards, 0);
                    if !hand.is_finished() {
                        lemma_update_keeps_finished(
                            old(self)@,
                            self@,
                            index as int,
                            (HandView {
                                cards: hand.cards.push(card),
                                doubled: true,
                                state: HandState::Finished,
                                ..hand
                            }),
                        );
                    }
                }
                Ok(false)
            },
            PlayerDecision::Split => {
                let hand = &self.player.hands[index];
                if hand.cards.len() != 2 || !hand.contains_pair() {
                    return Err(GameError::InvalidSplit);
                }
                if self.player.hands.len() >= MAX_HANDS {
                    return Err(GameError::TooManyHands);
                }
                let ghost parent = self@.hands[index as int];
                self.split_hand(index);
                proof {
                    assert(self@.with_round_of(old(self)@) == self@.with_table_of(old(self)@));
                    if !parent.is_finished() {
                        let count = self@.hands.len() as int;
                        lemma_split_keeps_finished(
                            old(self)@,
                            self@,
                            index as int,
                            self@.hands[count - 2],
                            self@.hands[count - 1],
                        );
                    }
                }
                Ok(true)
            },
        }
    }

    /// Plays one step of the player's hand at `index`. A finished hand is
    /// left alone. Else the hand is marked as a natural where it is one,
    /// insurance is offered against a dealer's ace, the play policy is shown
    /// the game with this hand acting, and its move is made. The answer is as
    /// of `apply_decision`. No finished hand of the player is touched.
    pub fn handle_player_hand(&mut self, index: usize) -> (split: Result<bool, GameError>)
        requires
            old(self)@.wf(),
            old(self)@.dealt(),
            index < old(self)@.hands.len(),
        ensures
            player_step(
                old(self)@,
                final(self)@,
                index as int,
                final(self).player.playing_strat,
                count_by(final(self).player.counting_strat),
                split,
            ),
            split is Ok && !old(self)@.hands[index as int].is_finished()
                ==> old(self)@.nearer_the_end(final(self)@),
            old(self)@.keeps_finished_hands(final(self)@),
            old(self)@.same_rules(final(self)@),
            final(self).same_policies(old(self)),
            final(self)@.wf(),
            old(self).tallied() ==> final(self).tallied(),
            old(self)@.draws_some(final(self)@, count_by(final(self).player.counting_strat)),
            final(self)@.dealt(),
            final(self)@.hands.len() >= old(self)@.hands.len(),
    {
        let ghost delta = count_by(self.player.counting_strat);
        proof {
            old(self)@.lemma_draws_none(delta);
            assert(old(self)@.with_round_of(old(self)@) == old(self)@);
        }
        if self.player.hands[index].is_finished() {
            return Ok(false);
        }
        if self.natural_check(&self.player.hands[index]) {
            self.player_natural(index);
        }
        let ghost marked = self@;
        proof {
            assert(marked == old(self)@.natural_marked(index as int));
            lemma_pending_update(old(self)@.hands, index as int, marked.hands[index as int]);
            assert(marked.hands =~= old(self)@.hands.update(index as int, marked.hands[index as int]));
            assert forall|i: int| 0 <= i < marked.hands.len() implies (#[trigger] marked.hands[i]).sound()
                && marked.hands[i].cards.len() >= 2 by {
                assert(old(self)@.hands[i].sound());
            }
            lemma_update_keeps_finished(
                old(self)@,
                marked,
                index as int,
                marked.hands[index as int],
            );
        }
        let upcard = self.get_dealer_upcard();
        match upcard {
            Some(card) => {
                if card.rank == Rank::Ace {
                    let state = self.get_state(Some(self.player.hands[index].clone()));
                    let _ = self.player.decide_insurance(state);
                }
            },
            None => {},
        }
        let state = self.get_state(Some(self.player.hands[index].clone()));
        let decision = self.player.decide_play(state);
        let split = self.apply_decision(index, decision);
        proof {
            assert(marked.with_round_of(old(self)@) == old(self)@);
            old(self)@.lemma_draws_some_more(marked, self@, delta);
        }
        split
    }

    /// Makes the dealer's move, or says why it cannot be made and leaves the
    /// game as it is. The dealer takes a card as any hand does, or stands,
    /// which finishes the hand; the dealer never splits, doubles down or
    /// gives up.
    pub fn apply_dealer_decision(&mut self, decision: PlayerDecision) -> (done: Result<
        (),
        GameError,
    >)
        requires
            old(self)@.wf(),
            old(self)@.dealer_hand is Some,
        ensures
            match done {
                Ok(_) => {
                    &&& old(self)@.dealer_move_error(decision) is None
                    &&& old(self)@.dealer_moves(
                        final(self)@,
                        decision,
                        count_by(final(self).player.counting_strat),
                    )
                    &&& old(self)@.dealer_hand.unwrap().state != HandState::Finished
                        ==> dealer_weight(final(self)@.dealer_hand.unwrap()) < dealer_weight(
                        old(self)@.dealer_hand.unwrap(),
                    )
                },
                Err(error) => {
                    &&& old(self)@.dealer_move_error(decision) == Some(error)
                    &&& final(self)@ == old(self)@
                },
            },
            old(self)@.same_rules(final(self)@),
            final(self).same_policies(old(self)),
            final(self)@.wf(),
            old(self).tallied() ==> final(self).tallied(),
            old(self)@.draws_some(final(self)@, count_by(final(self).player.counting_strat)),
            final(self)@.hands == old(self)@.hands,
            final(self)@.dealer_hand is Some,
            old(self)@.dealt() ==> final(self)@.dealt(),
    {
        let ghost delta = count_by(self.player.counting_strat);
        let ghost hand = self@.dealer_hand.unwrap();
        proof {
            old(self)@.lemma_draws_none(delta);
            assert(old(self)@.with_round_of(old(self)@) == old(self)@);
        }
        match decision {
            PlayerDecision::Hit => {
                let total: u8 = match &self.dealer.hand {
                    Some(hand) => hand.value(),
                    None => 0,
                };
                if total > MAX_TOTAL_TO_DRAW {
                    return Err(GameError::HandFull);
                }
                self.hit_dealer();
                proof {
                    let card = self@.played.last();
                    lemma_hit_weighs_less(hand, card);
                    assert(self@.with_round_of(old(self)@) == self@.with_table_of(old(self)@));
                    old(self)@.lemma_draws_one_more(
                        old(self)@,
                        self@.with_table_of(old(self)@),
                        Seq::empty(),
                        card,
                        delta,
                    );
                }
                Ok(())
            },
            PlayerDecision::Stand => {
                match &mut self.dealer.hand {
                    Some(hand) => {
                        hand.set_state(HandState::Finished);
                    },
                    None => {},
                }
                proof {
                    lemma_totals(hand.cards, 0);
                    assert(self@.with_round_of(old(self)@) == old(self)@);
                }
                Ok(())
            },
            _ => Err(GameError::DealerDecision),
        }
    }

    /// Plays one step of the dealer's hand. A finished hand is left alone.
    /// Else the hand is marked as a natural where it is one, the dealer's
    /// policy is shown the game with the dealer's hand acting, and its move
    /// is made as by `apply_dealer_decision`. The player's hands are not
    /// touched.
    pub fn handle_dealer_hand(&mut self) -> (done: Result<(), GameError>)
        requires
            old(self)@.wf(),
            old(self)@.dealt(),
        ensures
            dealer_step(
                old(self)@,
                final(self)@,
                final(self).dealer.strategy,
                count_by(final(self).player.counting_strat),
                done,
            ),
            done is Ok && old(self)@.dealer_hand.unwrap().state != HandState::Finished
                ==> dealer_weight(final(self)@.dealer_hand.unwrap()) < dealer_weight(
                old(self)@.dealer_hand.unwrap(),
            ),
            old(self)@.same_rules(final(self)@),
            final(self).same_policies(old(self)),
            final(self)@.wf(),
            old(self).tallied() ==> final(self).tallied(),
            old(self)@.draws_some(final(self)@, count_by(final(self).player.counting_strat)),
            final(self)@.hands == old(self)@.hands,
            final(self)@.dealt(),
    {
        let ghost delta = count_by(self.player.counting_strat);
        proof {
            old(self)@.lemma_draws_none(delta);
            assert(old(self)@.with_round_of(old(self)@) == old(self)@);
        }
        if self.dealer.is_finished() {
            return Ok(());
        }
        let natural = match &self.dealer.hand {
            Some(hand) => self.natural_check(hand),
            None => false,
        };
        if natural {
            match &mut self.dealer.hand {
                Some(hand) => {
                    hand.natural = true;
                },
                None => {},
            }
        }
        let ghost marked = self@;
        proof {
            assert(marked == old(self)@.dealer_natural_marked());
            assert(marked.with_round_of(old(self)@) == old(self)@);
        }
        let acting = match &self.dealer.hand {
            Some(hand) => Some(hand.clone()),
            None => None,
        };
        let state = self.get_state(acting);
        let decision = self.dealer.decide_play(state);
        let done = self.apply_dealer_decision(decision);
        proof {
            old(self)@.lemma_draws_some_more(marked, self@, delta);
        }
        done
    }

    /// Plays the round that was dealt and says who won each hand of the
    /// player, in the order of the hands. The round's stake is that of the
    /// dealer's hand. The player acts first, in passes over the hands: each
    /// pass takes one step on every hand that stood unfinished when the pass
    /// began, and the hands that a split makes wait for the next pass. Then
    /// the dealer's hand is marked as a natural where it is one, and the
    /// dealer draws or stands as the dealer's policy says. The round is
    /// given up where the stake is over the table limit, where a move
    /// cannot be made, and where the dealer's policy asks for anything but
    /// a card or to stand. A hand that is finished when the round begins is
    /// not touched, and a round in which all hands are finished asks no
    /// policy, draws no card and is not given up.
    pub fn play_hand(&mut self) -> (results: Result<Vec<(Winner, EndState)>, GameError>)
        requires
            old(self)@.wf(),
            old(self)@.dealt(),
        ensures
            round_plays(
                old(self)@,
                final(self)@,
                final(self).player.playing_strat,
                final(self).dealer.strategy,
                count_by(final(self).player.counting_strat),
                error_of(results),
            ),
            match results {
                Ok(results) => {
                    &&& old(self)@.dealer_hand.unwrap().init_bet <= MAX_BET
                    &&& final(self)@.last_bet == old(self)@.dealer_hand.unwrap().init_bet
                    &&& all_finished(final(self)@.hands)
                    &&& final(self)@.dealer_hand matches Some(dealer) && dealer.state
                        == HandState::Finished && resolves(
                        results@,
                        final(self)@.hands,
                        dealer,
                        final(self)@.last_bet,
                    )
                    &&& final(self)@.last_winner == round_winner(results@)
                },
                Err(error) => {
                    &&& error == GameError::BetOverLimit <==> old(self)@.dealer_hand.unwrap().init_bet
                        > MAX_BET
                    &&& error == GameError::BetOverLimit ==> final(self)@ == old(self)@
                },
            },
            all_finished(old(self)@.hands) && old(self)@.dealer_hand.unwrap().state
                == HandState::Finished && old(self)@.dealer_hand.unwrap().init_bet <= MAX_BET
                ==> results is Ok && final(self)@ == (GameView {
                last_bet: old(self)@.dealer_hand.unwrap().init_bet,
                last_winner: final(self)@.last_winner,
                ..old(self)@
            }),
            all_finished(old(self)@.hands) ==> final(self)@.hands == old(self)@.hands,
            old(self)@.keeps_finished_hands(final(self)@),
            old(self)@.same_rules(final(self)@.with_last_of(old(self)@)),
            old(self)@.draws_some(final(self)@, count_by(final(self).player.counting_strat)),
            final(self).same_policies(old(self)),
            final(self)@.wf(),
            old(self).tallied() ==> final(self).tallied(),
            final(self)@.dealt(),
            final(self)@.hands.len() >= old(self)@.hands.len(),
    {
        let ghost delta = count_by(self.player.counting_strat);
        let ghost policy = self.player.playing_strat;
        let ghost house = self.dealer.strategy;
        proof {
            old(self)@.lemma_draws_none(delta);
            assert(old(self)@.with_round_of(old(self)@) == old(self)@);
        }
        let stake: u32 = match &self.dealer.hand {
            Some(hand) => hand.init_bet,
            None => 0,
        };
        if stake > MAX_BET {
            return Err(GameError::BetOverLimit);
        }
        self.last_bet = stake;
        let ghost started = self@;
        let ghost mut passes: nat = 0;
        proof {
            assert(started.with_round_of(old(self)@) == old(self)@);
        }

        while !self.player.is_finished()
            invariant
                self@.wf(),
                self@.dealt(),
                self.same_policies(old(self)),
                policy == old(self).player.playing_strat,
                house == old(self).dealer.strategy,
                old(self).tallied() ==> self.tallied(),
                delta == count_by(self.player.counting_strat),
                old(self)@.draws_some(self@, delta),
                started.same_rules(self@),
                started == (GameView {
                    last_bet: old(self)@.dealer_hand.unwrap().init_bet,
                    ..old(self)@
                }),
                old(self)@.dealer_hand is Some,
                old(self)@.dealer_hand.unwrap().init_bet <= MAX_BET,
                self@.hands.len() >= old(self)@.hands.len(),
                all_finished(started.hands) ==> self@ == started,
                started.keeps_finished_hands(self@),
                forall|post: GameView, error: Option<GameError>, left: nat| #[trigger]
                    player_turn(self@, post, policy, delta, error, left) ==> player_turn(
                        started,
                        post,
                        policy,
                        delta,
                        error,
                        left + passes,
                    ),
            decreases MAX_HANDS - self@.hands.len(), pending(self@.hands),
        {
            let ghost pass_start = self@;
            let ghost mut progress = false;
            let mut end: usize = self.player.hands.len();
            let mut i: usize = 0;
            while i < end
                invariant
                    i <= end,
                    end <= self@.hands.len(),
                    self@.wf(),
                    self@.dealt(),
                    self.same_policies(old(self)),
                    policy == old(self).player.playing_strat,
                    house == old(self).dealer.strategy,
                    old(self).tallied() ==> self.tallied(),
                    delta == count_by(self.player.counting_strat),
                    old(self)@.draws_some(self@, delta),
                    started.same_rules(self@),
                    started == (GameView {
                        last_bet: old(self)@.dealer_hand.unwrap().init_bet,
                        ..old(self)@
                    }),
                    old(self)@.dealer_hand is Some,
                    old(self)@.dealer_hand.unwrap().init_bet <= MAX_BET,
                    self@.hands.len() >= pass_start.hands.len(),
                    pass_start.hands.len() >= old(self)@.hands.len(),
                    !progress ==> self@ == pass_start && end == self@.hands.len(),
                    !progress ==> forall|k: int|
                        0 <= k < i ==> (#[trigger] self@.hands[k]).is_finished(),
                    progress ==> pass_start.nearer_the_end(self@),
                    !all_finished(started.hands),
                    !all_finished(pass_start.hands),
                    started.keeps_finished_hands(self@),
                    forall|post: GameView, error: Option<GameError>, left: nat| #[trigger]
                        player_turn(pass_start, post, policy, delta, error, left) ==> player_turn(
                            started,
                            post,
                            policy,
                            delta,
                            error,
                            left + passes,
                        ),
                    forall|post: GameView, error: Option<GameError>| #[trigger]
                        pass_plays(self@, post, i as int, end as int, policy, delta, error)
                            ==> pass_plays(
                            pass_start,
                            post,
                            0,
                            pass_start.hands.len() as int,
                            policy,
                            delta,
                            error,
                        ),
                decreases end - i,
            {
                let ghost before = self@;
                let ghost index = i as int;
                let ghost limit = end as int;
                let step = self.handle_player_hand(i);
                proof {
                    old(self)@.lemma_draws_some_more(before, self@, delta);
                }
                match step {
                    Ok(split) => {
                        proof {
                            if !before.hands[i as int].is_finished() {
                                progress = true;
                            }
                        }
                        if split {
                            end = end - 1;
                        } else {
                            i += 1;
                        }
                        proof {
                            assert forall|post: GameView, error: Option<GameError>| #[trigger]
                                pass_plays(
                                    self@,
                                    post,
                                    i as int,
                                    end as int,
                                    policy,
                                    delta,
                                    error,
                                ) implies pass_plays(
                                pass_start,
                                post,
                                0,
                                pass_start.hands.len() as int,
                                policy,
                                delta,
                                error,
                            ) by {
                                lemma_pass_after_step(
                                    before,
                                    self@,
                                    post,
                                    index,
                                    limit,
                                    policy,
                                    delta,
                                    split,
                                    error,
                                );
                            }
                        }
                    },
                    Err(error) => {
                        proof {
                            lemma_pass_stops(before, self@, index, limit, policy, delta, error);
                            lemma_turn_stops(pass_start, self@, policy, delta, error, 0);
                            assert(player_turn(
                                started,
                                self@,
                                policy,
                                delta,
                                Some(error),
                                1 + passes,
                            ));
                            lemma_round_stops_in_player_turn(
                                old(self)@,
                                self@,
                                policy,
                                house,
                                delta,
                                error,
                                1 + passes,
                            );
                        }
                        return Err(error);
                    },
                }
            }
            proof {
                if !progress {
                    assert(all_finished(self@.hands));
                }
                assert(pass_plays(self@, self@, i as int, end as int, policy, delta, None));
                assert forall|post: GameView, error: Option<GameError>, left: nat| #[trigger]
                    player_turn(self@, post, policy, delta, error, left) implies player_turn(
                    started,
                    post,
                    policy,
                    delta,
                    error,
                    left + (passes + 1),
                ) by {
                    lemma_turn_after_pass(pass_start, self@, post, policy, delta, error, left);
                }
                passes = passes + 1;
            }
        }

        let ghost played = self@;
        let ghost mut steps: nat = 0;
        proof {
            assert(player_turn(played, played, policy, delta, None, 0));
            assert(player_turn_over(old(self)@, played, policy, delta, passes)) by {
                reveal(player_turn_over);
            }
        }
        while !self.dealer.is_finished()
            invariant
                self@.wf(),
                self@.dealt(),
                self.same_policies(old(self)),
                policy == old(self).player.playing_strat,
                house == old(self).dealer.strategy,
                old(self).tallied() ==> self.tallied(),
                delta == count_by(self.player.counting_strat),
                old(self)@.draws_some(self@, delta),
                started.same_rules(self@),
                started == (GameView {
                    last_bet: old(self)@.dealer_hand.unwrap().init_bet,
                    ..old(self)@
                }),
                old(self)@.dealer_hand is Some,
                old(self)@.dealer_hand.unwrap().init_bet <= MAX_BET,
                all_finished(self@.hands),
                self@.hands == played.hands,
                player_turn_over(old(self)@, played, policy, delta, passes),
                all_finished(old(self)@.hands) ==> played.hands == old(self)@.hands,
                played.hands.len() >= old(self)@.hands.len(),
                old(self)@.keeps_finished_hands(played),
                forall|post: GameView, error: Option<GameError>, left: nat| #[trigger]
                    dealer_turn(self@, post, house, delta, error, left) ==> dealer_turn(
                        played,
                        post,
                        house,
                        delta,
                        error,
                        left + steps,
                    ),
            decreases dealer_weight(self@.dealer_hand.unwrap()),
        {
            let ghost before = self@;
            let step = self.handle_dealer_hand();
            proof {
                old(self)@.lemma_draws_some_more(before, self@, delta);
            }
            match step {
                Ok(_) => {
                    proof {
                        assert forall|post: GameView, error: Option<GameError>, left: nat|
                            #[trigger] dealer_turn(
                                self@,
                                post,
                                house,
                                delta,
                                error,
                                left,
                            ) implies dealer_turn(
                            played,
                            post,
                            house,
                            delta,
                            error,
                            left + (steps + 1),
                        ) by {
                            lemma_dealer_turn_after_step(
                                before,
                                self@,
                                post,
                                house,
                                delta,
                                error,
                                left,
                            );
                        }
                        steps = steps + 1;
                    }
                },
                Err(error) => {
                    proof {
                        lemma_dealer_turn_stops(before, self@, house, delta, error, 0);
                        assert(dealer_turn(played, self@, house, delta, Some(error), 1 + steps));
                        lemma_round_ends(
                            old(self)@,
                            played,
                            self@,
                            self@,
                            policy,
                            house,
                            delta,
                            Some(error),
                            passes,
                            1 + steps,
                        );
                        if all_finished(old(self)@.hands) && old(self)@.dealer_hand.unwrap().state
                            == HandState::Finished {
                            law_round_of_finished_hands(
                                old(self)@,
                                self@,
                                policy,
                                house,
                                delta,
                                Some(error),
                            );
                        }
                    }
                    return Err(error);
                },
            }
        }

        let mut hand_results: Vec<(Winner, EndState)> = Vec::new();
        let mut i: usize = 0;
        while i < self.player.hands.len()
            invariant
                i <= self@.hands.len(),
                self@.wf(),
                self@.dealer_hand is Some,
                hand_results@.len() == i,
                forall|k: int|
                    0 <= k < i ==> #[trigger] hand_results@[k] == resolution(
                        self@.hands[k],
                        self@.dealer_hand.unwrap(),
                        self@.last_bet,
                    ),
            decreases self@.hands.len() - i,
        {
            match &self.dealer.hand {
                Some(dealer_hand) => {
                    assert(self@.hands[i as int].sound());
                    let outcome = resolve_hand(&self.player.hands[i], dealer_hand, self.last_bet);
                    hand_results.push(outcome);
                },
                None => {},
            }
            i += 1;
        }
        let ghost resolved = self@;
        self.last_winner = determine_last_winner(&hand_results);
        proof {
            assert(self@.with_round_of(old(self)@) == resolved.with_round_of(old(self)@));
            assert(dealer_turn(resolved, resolved, house, delta, None, 0));
            assert(dealer_turn(played, resolved, house, delta, None, steps));
            lemma_round_ends(
                old(self)@,
                played,
                resolved,
                self@,
                policy,
                house,
                delta,
                None,
                passes,
                steps,
            );
            if all_finished(old(self)@.hands) && old(self)@.dealer_hand.unwrap().state
                == HandState::Finished {
                law_round_of_finished_hands(old(self)@, self@, policy, house, delta, None);
            }
        }
        Ok(hand_results)
    }
}

} // verus!
