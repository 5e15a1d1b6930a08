//! A blackjack round engine with swappable play, bet, counting and insurance
//! policies, and a runner that aggregates the outcomes of many rounds.

pub mod actions;
pub mod betting_strategy;
pub mod deck;
pub mod hand;
pub mod participants;
pub mod playing_strategy;
pub mod random;
pub mod run_hand;
pub mod run_many;

use crate::betting_strategy::BetStrategy;
use crate::deck::{
    blank_is_covered, covered_at, is_fresh_shoe, lemma_fresh_shoe, shoe_size, Card, MultiDeck,
    Rank,
};
use crate::hand::{view_of, views, Hand, HandView};
use crate::participants::{Dealer, Player};
use crate::playing_strategy::{
    count_by, CountStrategy, DealerUpcardStrength, InsuranceStrategy, PlayStrategy,
};
use crate::random::fork_rng;
use rand_chacha::ChaCha8Rng;
use std::sync::Arc;
use vstd::prelude::*;

verus! {

/// The largest stake the table takes. Twice it still fits the type of a
/// stake, so a progression can always double its last stake.
pub const MAX_BET: u32 = 0x7fff_ffff;

/// The largest number of hands a player can hold in one round: the number
/// of hands won and lost is kept in a byte.
pub const MAX_HANDS: usize = 255;

/// How one hand ended, as far as its payoff depends on it.
#[derive(Debug, Copy, Clone, PartialEq, Eq, Structural)]
pub struct EndState {
    pub hand_bet: u32,
    pub magnitude_bet_inc: u32,
    pub p_natural: bool,
    pub p_insurance: bool,
    pub p_doubled: bool,
    pub p_bust: bool,
    pub p_surrender_early: bool,
    pub p_surrender_late: bool,
    pub d_natural: bool,
    pub d_bust: bool,
}

/// The record of a hand of which nothing is known yet.
pub open spec fn blank_end_state() -> EndState {
    EndState {
        hand_bet: u32::MAX,
        magnitude_bet_inc: 0,
        p_natural: false,
        p_insurance: false,
        p_doubled: false,
        p_bust: false,
        p_surrender_early: false,
        p_surrender_late: false,
        d_natural: false,
        d_bust: false,
    }
}

impl Default for EndState {
    fn default() -> (state: EndState)
        ensures
            state == blank_end_state(),
    {
        EndState {
            hand_bet: u32::MAX,
            magnitude_bet_inc: 0,
            p_natural: false,
            p_insurance: false,
            p_doubled: false,
            p_bust: false,
            p_surrender_early: false,
            p_surrender_late: false,
            d_natural: false,
            d_bust: false,
        }
    }
}

/// Who won a hand or a round. `Nobody` stands before the first round.
#[derive(Debug, Copy, Clone, PartialEq, Eq, Structural)]
pub enum Winner {
    Player,
    Dealer,
    Tie,
    Nobody,
}

/// The true count: the running count over the number of decks, kept as the
/// exact fraction.
#[derive(Debug, Copy, Clone, PartialEq, Eq, Structural)]
pub struct TrueCount {
    pub running_count: i32,
    pub deck_count: u8,
}

/// A configuration that no game can be made from.
#[derive(Debug, Copy, Clone, PartialEq, Eq, Structural)]
pub enum ConfigError {
    /// The shoe is built from no deck at all.
    NoDecks,
    /// The shoe uses the sentinel but is built from a single deck, which is
    /// shorter than the offsets at which the sentinel goes.
    BlankNeedsTwoDecks,
    /// The shoe holds more cards than a rebuilt one would.
    ShoeOverfull,
    /// A sentinel lies at the bottom of the shoe or on another sentinel.
    BlankUncovered,
    /// The base stake is over the table limit.
    BetOverLimit,
}

/// Why a round or a run was given up.
#[derive(Debug, Copy, Clone, PartialEq, Eq, Structural)]
pub enum GameError {
    /// A split was asked for on a hand that is not two cards of one rank.
    InvalidSplit,
    /// A card was asked for on a hand whose total could then no longer be
    /// taken.
    HandFull,
    /// A split was asked for when the player held the most hands allowed.
    TooManyHands,
    /// The dealer's policy asked for something other than a card or to stand.
    DealerDecision,
    /// The bet policy asked for a stake over the table limit.
    BetOverLimit,
}

impl ConfigError {
    /// What is wrong with the configuration, in words.
    pub open spec fn message(&self) -> Seq<char> {
        match self {
            ConfigError::NoDecks => "the shoe needs at least one deck"@,
            ConfigError::BlankNeedsTwoDecks => "a shoe with a cut card needs two decks"@,
            ConfigError::ShoeOverfull => "the shoe holds more cards than its decks have"@,
            ConfigError::BlankUncovered => "a cut card lies on no playing card"@,
            ConfigError::BetOverLimit => "the base stake is over the table limit"@,
        }
    }

    /// What is wrong with the configuration, as text.
    pub fn to_string(&self) -> (text: String)
        ensures
            text@ == self.message(),
    {
        match self {
            ConfigError::NoDecks => "the shoe needs at least one deck".to_owned(),
            ConfigError::BlankNeedsTwoDecks => "a shoe with a cut card needs two decks".to_owned(),
            ConfigError::ShoeOverfull => "the shoe holds more cards than its decks have".to_owned(),
            ConfigError::BlankUncovered => "a cut card lies on no playing card".to_owned(),
            ConfigError::BetOverLimit => "the base stake is over the table limit".to_owned(),
        }
    }
}

impl GameError {
    /// Why the round was given up, in words.
    pub open spec fn message(&self) -> Seq<char> {
        match self {
            GameError::InvalidSplit => "a split was asked for on a hand that is no pair"@,
            GameError::HandFull => "a card was asked for on a hand that can take no more"@,
            GameError::TooManyHands => "a split was asked for on a full table"@,
            GameError::DealerDecision => "the dealer may only hit or stand"@,
            GameError::BetOverLimit => "the stake is over the table limit"@,
        }
    }

    /// Why the round was given up, as text.
    pub fn to_string(&self) -> (text: String)
        ensures
            text@ == self.message(),
    {
        match self {
            GameError::InvalidSplit => "a split was asked for on a hand that is no pair".to_owned(),
            GameError::HandFull => "a card was asked for on a hand that can take no more".to_owned(),
            GameError::TooManyHands => "a split was asked for on a full table".to_owned(),
            GameError::DealerDecision => "the dealer may only hit or stand".to_owned(),
            GameError::BetOverLimit => "the stake is over the table limit".to_owned(),
        }
    }
}

/// What a policy is shown when it is asked to decide, as a plain value.
pub struct GameStateView {
    pub init_bet: u32,
    pub last_bet: u32,
    pub played_cards: Seq<Card>,
    pub dealer_upcard: Option<Card>,
    pub dealer_upcard_str: Option<DealerUpcardStrength>,
    pub player_hand: Option<HandView>,
    pub dealer_hand: Option<HandView>,
    pub dealer_cutoff: u8,
    pub contains_blank: bool,
    pub last_winner: Winner,
    pub allow_early_surrender: bool,
    pub allow_late_surrender: bool,
    pub running_count: i32,
    pub true_count: TrueCount,
}

impl GameStateView {
    /// What a play or insurance policy may rely on: the acting hand is there
    /// with at least two cards, the dealer's hand is there with its upcard,
    /// the upcard and its strength are those of the dealer's first card, and
    /// the value of both hands can be taken.
    pub open spec fn ready_to_play(&self) -> bool {
        &&& self.player_hand matches Some(hand) && hand.cards.len() >= 2 && hand.sound()
        &&& self.dealer_hand matches Some(dealer) && dealer.cards.len() >= 1 && dealer.sound()
            && self.dealer_upcard == Some(dealer.cards[0]) && self.dealer_upcard_str == Some(
            dealer.cards[0].strength(),
        )
    }

    /// What a bet policy may rely on: the base stake and the last stake are
    /// within the table limit.
    pub open spec fn bets_in_limit(&self) -> bool {
        self.init_bet <= MAX_BET && self.last_bet <= MAX_BET
    }
}

/// What a policy is shown when it is asked to decide: an owned copy of the
/// round as it stands.
#[derive(Debug)]
pub struct GameState {
    pub init_bet: u32,
    pub last_bet: u32,
    pub played_cards: Vec<Card>,
    pub dealer_upcard: Option<Card>,
    pub dealer_upcard_str: Option<DealerUpcardStrength>,
    pub player_hand: Option<Hand>,
    pub dealer_hand: Option<Hand>,
    pub dealer_cutoff: u8,
    pub contains_blank: bool,
    pub last_winner: Winner,
    pub allow_early_surrender: bool,
    pub allow_late_surrender: bool,
    pub running_count: i32,
    pub true_count: TrueCount,
}

impl View for GameState {
    type V = GameStateView;

    open spec fn view(&self) -> GameStateView {
        GameStateView {
            init_bet: self.init_bet,
            last_bet: self.last_bet,
            played_cards: self.played_cards@,
            dealer_upcard: self.dealer_upcard,
            dealer_upcard_str: self.dealer_upcard_str,
            player_hand: view_of(self.player_hand),
            dealer_hand: view_of(self.dealer_hand),
            dealer_cutoff: self.dealer_cutoff,
            contains_blank: self.contains_blank,
            last_winner: self.last_winner,
            allow_early_surrender: self.allow_early_surrender,
            allow_late_surrender: self.allow_late_surrender,
            running_count: self.running_count,
            true_count: self.true_count,
        }
    }
}

impl GameState {
    /// A snapshot with no stake placed yet.
    pub fn new(
        init_bet: u32,
        played_cards: Vec<Card>,
        dealer_upcard: Option<Card>,
        dealer_upcard_str: Option<DealerUpcardStrength>,
        player_hand: Option<Hand>,
        dealer_hand: Option<Hand>,
        dealer_cutoff: u8,
        contains_blank: bool,
        last_winner: Winner,
        running_count: i32,
        true_count: TrueCount,
        allow_early_surrender: bool,
        allow_late_surrender: bool,
    ) -> (state: GameState)
        ensures
            state@ == (GameStateView {
                init_bet,
                last_bet: 0,
                played_cards: played_cards@,
                dealer_upcard,
                dealer_upcard_str,
                player_hand: view_of(player_hand),
                dealer_hand: view_of(dealer_hand),
                dealer_cutoff,
                contains_blank,
                last_winner,
                allow_early_surrender,
                allow_late_surrender,
                running_count,
                true_count,
            }),
    {
        GameState {
            init_bet,
            last_bet: 0,
            played_cards,
            dealer_upcard,
            dealer_upcard_str,
            player_hand,
            dealer_hand,
            dealer_cutoff,
            contains_blank,
            last_winner,
            allow_early_surrender,
            allow_late_surrender,
            running_count,
            true_count,
        }
    }
}

/// Everything a game is made from.
pub struct GameSettings<P, D, B, C, I> {
    pub deck: MultiDeck,
    pub contains_blank: bool,
    pub max_splits: u8,
    pub init_bet: u32,
    pub dealer_cutoff: u8,
    pub dealer_strat: D,
    pub player_strat: P,
    pub betting_strat: B,
    pub counting_strat: C,
    pub insurance_strat: I,
    pub allow_early_surrender: bool,
    pub allow_late_surrender: bool,
    pub rng: ChaCha8Rng,
}

/// A game as a plain value, without its policies and its generator.
pub struct GameView {
    pub shoe: Seq<Card>,
    pub deck_count: u8,
    pub contains_blank: bool,
    pub hands: Seq<HandView>,
    pub dealer_hand: Option<HandView>,
    pub dealer_cutoff: u8,
    pub played: Seq<Card>,
    pub running_count: i32,
    pub last_winner: Winner,
    pub last_bet: u32,
    pub init_bet: u32,
    pub max_splits: u8,
    pub allow_early_surrender: bool,
    pub allow_late_surrender: bool,
}

impl GameView {
    /// The upcard: the first card of the dealer's hand.
    pub open spec fn upcard(&self) -> Option<Card> {
        match self.dealer_hand {
            Some(hand) => if hand.cards.len() > 0 {
                Some(hand.cards[0])
            } else {
                None
            },
            None => None,
        }
    }

    /// The strength of the upcard.
    pub open spec fn upcard_strength(&self) -> Option<DealerUpcardStrength> {
        match self.upcard() {
            Some(card) => Some(card.strength()),
            None => None,
        }
    }

    /// The true count.
    pub open spec fn true_count(&self) -> TrueCount {
        TrueCount { running_count: self.running_count, deck_count: self.deck_count }
    }

    /// What a policy is shown of the game when `player_hand` acts.
    pub open spec fn snapshot(&self, player_hand: Option<HandView>) -> GameStateView {
        GameStateView {
            init_bet: self.init_bet,
            last_bet: self.last_bet,
            played_cards: self.played,
            dealer_upcard: self.upcard(),
            dealer_upcard_str: self.upcard_strength(),
            player_hand,
            dealer_hand: self.dealer_hand,
            dealer_cutoff: self.dealer_cutoff,
            contains_blank: self.contains_blank,
            last_winner: self.last_winner,
            allow_early_surrender: self.allow_early_surrender,
            allow_late_surrender: self.allow_late_surrender,
            running_count: self.running_count,
            true_count: self.true_count(),
        }
    }

    /// The game with the hands of `other` on the table.
    pub open spec fn with_table_of(&self, other: GameView) -> GameView {
        GameView { hands: other.hands, dealer_hand: other.dealer_hand, ..*self }
    }

    /// Whether `post` is this game after one draw that gave `card`, counted
    /// as `delta`. An empty shoe is rebuilt first, the history and the count
    /// start again, and the card is the top one of the new shoe. A sentinel
    /// on top is put aside, unrecorded and uncounted, and the card is the one
    /// under it. The hands on the table stay as they are.
    pub open spec fn draws(&self, post: GameView, card: Card, delta: i8) -> bool {
        if self.shoe.len() == 0 {
            &&& is_fresh_shoe(post.shoe.push(card), self.deck_count, self.contains_blank)
            &&& post == (GameView {
                shoe: post.shoe,
                played: seq![card],
                running_count: delta as i32,
                ..*self
            })
        } else if self.shoe.last().rank == Rank::Blank {
            &&& self.shoe.len() >= 2
            &&& card == self.shoe.drop_last().last()
            &&& post == (GameView {
                shoe: self.shoe.drop_last().drop_last(),
                played: self.played.push(card),
                running_count: (self.running_count + delta) as i32,
                ..*self
            })
        } else {
            &&& card == self.shoe.last()
            &&& post == (GameView {
                shoe: self.shoe.drop_last(),
                played: self.played.push(card),
                running_count: (self.running_count + delta) as i32,
                ..*self
            })
        }
    }

    /// Whether `post` is this game after the draws that gave `cards`, one
    /// after another, each counted as `delta` says.
    pub open spec fn draws_all(
        &self,
        post: GameView,
        cards: Seq<Card>,
        delta: spec_fn(Card) -> i8,
    ) -> bool
        decreases cards.len(),
    {
        if cards.len() == 0 {
            post == *self
        } else {
            exists|mid: GameView|
                #![trigger mid.draws(post, cards.last(), delta(cards.last()))]
                self.draws_all(mid, cards.drop_last(), delta) && mid.draws(
                    post,
                    cards.last(),
                    delta(cards.last()),
                )
        }
    }

    /// Whether `post` is this game but for the shoe, the history, the count
    /// and the hands: what the moves of a round leave alone.
    pub open spec fn same_rules(&self, post: GameView) -> bool {
        post == (GameView {
            shoe: post.shoe,
            hands: post.hands,
            dealer_hand: post.dealer_hand,
            played: post.played,
            running_count: post.running_count,
            ..*self
        })
    }

    /// A game is itself after no draw.
    pub proof fn lemma_draws_none(&self, delta: spec_fn(Card) -> i8)
        ensures
            self.draws_all(*self, Seq::empty(), delta),
    {
    }

    /// A row of draws and one more draw make a row of draws.
    pub proof fn lemma_draws_one_more(
        &self,
        mid: GameView,
        post: GameView,
        cards: Seq<Card>,
        card: Card,
        delta: spec_fn(Card) -> i8,
    )
        requires
            self.draws_all(mid, cards, delta),
            mid.draws(post, card, delta(card)),
        ensures
            self.draws_all(post, cards.push(card), delta),
    {
        let longer = cards.push(card);
        assert(longer.drop_last() =~= cards);
        assert(self.draws_all(mid, longer.drop_last(), delta));
        assert(mid.draws(post, longer.last(), delta(longer.last())));
    }

    /// The game with the last stake and the last winner of `other`.
    pub open spec fn with_last_of(&self, other: GameView) -> GameView {
        GameView { last_bet: other.last_bet, last_winner: other.last_winner, ..*self }
    }

    /// The game with the hands on the table, the last stake and the last
    /// winner of `other`: with all of `other` that a round changes but the
    /// shoe, the history and the count.
    pub open spec fn with_round_of(&self, other: GameView) -> GameView {
        GameView {
            hands: other.hands,
            dealer_hand: other.dealer_hand,
            last_bet: other.last_bet,
            last_winner: other.last_winner,
            ..*self
        }
    }

    /// Whether the shoe, the history and the count of `post` are those of
    /// this game after some row of draws, and the settings of `post` are
    /// those of this game: no card comes from or goes anywhere but the shoe.
    pub open spec fn draws_some(&self, post: GameView, delta: spec_fn(Card) -> i8) -> bool {
        exists|cards: Seq<Card>| #[trigger]
            self.draws_all(post.with_round_of(*self), cards, delta)
    }

    /// Draws go the same way whatever hands are on the table and whatever
    /// the last round was.
    pub proof fn lemma_draws_on_any_table(
        &self,
        post: GameView,
        cards: Seq<Card>,
        delta: spec_fn(Card) -> i8,
        table: GameView,
    )
        requires
            self.draws_all(post, cards, delta),
        ensures
            self.with_round_of(table).draws_all(post.with_round_of(table), cards, delta),
        decreases cards.len(),
    {
        if cards.len() > 0 {
            let mid = choose|mid: GameView|
                #![trigger mid.draws(post, cards.last(), delta(cards.last()))]
                self.draws_all(mid, cards.drop_last(), delta) && mid.draws(
                    post,
                    cards.last(),
                    delta(cards.last()),
                );
            self.lemma_draws_on_any_table(mid, cards.drop_last(), delta, table);
            assert(mid.with_round_of(table).draws(
                post.with_round_of(table),
                cards.last(),
                delta(cards.last()),
            ));
        }
    }

    /// Two rows of draws, one after the other, make one row of draws.
    pub proof fn lemma_draws_in_a_row(
        &self,
        mid: GameView,
        post: GameView,
        first: Seq<Card>,
        second: Seq<Card>,
        delta: spec_fn(Card) -> i8,
    )
        requires
            self.draws_all(mid, first, delta),
            mid.draws_all(post, second, delta),
        ensures
            self.draws_all(post, first + second, delta),
        decreases second.len(),
    {
        if second.len() == 0 {
            assert(first + second =~= first);
        } else {
            let last = choose|last: GameView|
                #![trigger last.draws(post, second.last(), delta(second.last()))]
                mid.draws_all(last, second.drop_last(), delta) && last.draws(
                    post,
                    second.last(),
                    delta(second.last()),
                );
            self.lemma_draws_in_a_row(mid, last, first, second.drop_last(), delta);
            self.lemma_draws_one_more(
                last,
                post,
                first + second.drop_last(),
                second.last(),
                delta,
            );
            assert((first + second.drop_last()).push(second.last()) =~= first + second);
        }
    }

    /// A game that drew some cards and then some more drew some cards.
    pub proof fn lemma_draws_some_more(
        &self,
        mid: GameView,
        post: GameView,
        delta: spec_fn(Card) -> i8,
    )
        requires
            self.draws_some(mid, delta),
            mid.draws_some(post, delta),
        ensures
            self.draws_some(post, delta),
    {
        let first = choose|cards: Seq<Card>| #[trigger]
            self.draws_all(mid.with_round_of(*self), cards, delta);
        let second = choose|cards: Seq<Card>| #[trigger]
            mid.draws_all(post.with_round_of(mid), cards, delta);
        mid.lemma_draws_on_any_table(post.with_round_of(mid), second, delta, *self);
        assert(post.with_round_of(mid).with_round_of(*self) == post.with_round_of(*self));
        self.lemma_draws_in_a_row(
            mid.with_round_of(*self),
            post.with_round_of(*self),
            first,
            second,
            delta,
        );
    }

    /// Whether the running count is the sum of what the cards played from
    /// this shoe added to it.
    pub open spec fn tallied(&self, delta: spec_fn(Card) -> i8) -> bool {
        self.running_count == tally(self.played, delta)
    }

    /// A draw keeps the shoe sound and the game well formed, and keeps the
    /// running count the sum over the cards played from the shoe: also where
    /// the shoe is rebuilt, and both start again.
    pub proof fn law_draw_keeps_tally(
        &self,
        post: GameView,
        card: Card,
        delta: spec_fn(Card) -> i8,
    )
        requires
            self.shoe_is_sound(),
            self.draws(post, card, delta(card)),
        ensures
            post.shoe_is_sound(),
            self.wf() ==> post.wf(),
            self.tallied(delta) ==> post.tallied(delta),
    {
        if self.shoe.len() == 0 {
            lemma_fresh_shoe(post.shoe.push(card), self.deck_count, self.contains_blank);
            assert(post.shoe.push(card).drop_last() =~= post.shoe);
            assert forall|i: int| 0 <= i < post.shoe.len() implies #[trigger] covered_at(
                post.shoe,
                i,
            ) by {
                assert(covered_at(post.shoe.push(card), i));
            }
            assert(seq![card].drop_last() =~= Seq::<Card>::empty());
            assert(tally(seq![card], delta) == delta(card)) by {
                reveal_with_fuel(tally, 2);
            }
        } else {
            assert(covered_at(self.shoe, self.shoe.len() - 1));
            assert forall|i: int| 0 <= i < post.shoe.len() implies #[trigger] covered_at(
                post.shoe,
                i,
            ) by {
                assert(covered_at(self.shoe, i));
            }
            assert(self.played.push(card).drop_last() =~= self.played);
        }
    }

    /// A row of draws keeps the shoe sound and the game well formed, and
    /// keeps the running count the sum over the cards played from the shoe.
    pub proof fn law_draws_keep_tally(
        &self,
        post: GameView,
        cards: Seq<Card>,
        delta: spec_fn(Card) -> i8,
    )
        requires
            self.shoe_is_sound(),
            self.draws_all(post, cards, delta),
        ensures
            post.shoe_is_sound(),
            self.wf() ==> post.wf(),
            self.tallied(delta) ==> post.tallied(delta),
        decreases cards.len(),
    {
        if cards.len() > 0 {
            let mid = choose|mid: GameView|
                #![trigger mid.draws(post, cards.last(), delta(cards.last()))]
                self.draws_all(mid, cards.drop_last(), delta) && mid.draws(
                    post,
                    cards.last(),
                    delta(cards.last()),
                );
            self.law_draws_keep_tally(mid, cards.drop_last(), delta);
            mid.law_draw_keeps_tally(post, cards.last(), delta);
        }
    }

    /// The number of cards that left the shoe since it was last rebuilt, at
    /// most.
    pub open spec fn drawn(&self) -> int {
        shoe_size(self.deck_count, self.contains_blank) - self.shoe.len()
    }

    /// What every operation of a round keeps: the shoe can be drawn from and
    /// rebuilt, the stakes are within the table limit, the player holds no
    /// more hands than can be counted, and the value of every hand can be
    /// taken.
    pub open spec fn wf(&self) -> bool {
        &&& self.shoe_is_sound()
        &&& self.init_bet <= MAX_BET
        &&& self.last_bet <= MAX_BET
        &&& self.table_is_sound()
    }

    /// Whether the shoe can be drawn from and rebuilt: it is built from at
    /// least one deck, and from two where it uses the sentinel; it holds no
    /// more cards than a rebuilt one; a playing card lies under every
    /// sentinel; and the running count is within what the cards drawn from
    /// it can have added up to.
    pub open spec fn shoe_is_sound(&self) -> bool {
        &&& self.deck_count >= 1
        &&& self.contains_blank ==> self.deck_count >= 2
        &&& self.shoe.len() <= shoe_size(self.deck_count, self.contains_blank)
        &&& blank_is_covered(self.shoe)
        &&& -128 * self.drawn() <= self.running_count <= 127 * self.drawn()
    }

    /// Whether the player holds no more hands than can be counted, and the
    /// value of every hand on the table can be taken.
    pub open spec fn table_is_sound(&self) -> bool {
        &&& self.hands.len() <= MAX_HANDS
        &&& forall|i: int| 0 <= i < self.hands.len() ==> (#[trigger] self.hands[i]).sound()
        &&& self.dealer_hand matches Some(hand) ==> hand.sound()
    }
}

/// What the cards add to the count in all, each counted as `delta` says.
pub open spec fn tally(cards: Seq<Card>, delta: spec_fn(Card) -> i8) -> int
    decreases cards.len(),
{
    if cards.len() == 0 {
        0
    } else {
        tally(cards.drop_last(), delta) + delta(cards.last())
    }
}

/// One table: a shoe, a player, a dealer, and what the round has seen.
pub struct Game<P, D, B, C, I> {
    pub deck: MultiDeck,
    pub max_splits: u8,
    pub player: Player<P, B, C, I>,
    pub dealer: Dealer<D>,
    pub init_bet: u32,
    pub last_bet: u32,
    /// The cards drawn from the shoe since it was last rebuilt.
    pub played_cards: Vec<Card>,
    pub last_winner: Winner,
    pub rng: ChaCha8Rng,
    pub allow_early_surrender: bool,
    pub allow_late_surrender: bool,
    pub running_count: i32,
}

impl<P, D, B, C, I> View for Game<P, D, B, C, I> {
    type V = GameView;

    open spec fn view(&self) -> GameView {
        GameView {
            shoe: self.deck.shoe(),
            deck_count: self.deck.deck_count,
            contains_blank: self.deck.contains_blank,
            hands: views(self.player.hands@),
            dealer_hand: view_of(self.dealer.hand),
            dealer_cutoff: self.dealer.cutoff,
            played: self.played_cards@,
            running_count: self.running_count,
            last_winner: self.last_winner,
            last_bet: self.last_bet,
            init_bet: self.init_bet,
            max_splits: self.max_splits,
            allow_early_surrender: self.allow_early_surrender,
            allow_late_surrender: self.allow_late_surrender,
        }
    }
}

/// Why no game can be made from a shoe and a base stake, if there is a
/// reason.
pub open spec fn config_error(deck: MultiDeck, init_bet: u32) -> Option<ConfigError> {
    if deck.deck_count == 0 {
        Some(ConfigError::NoDecks)
    } else if deck.contains_blank && deck.deck_count < 2 {
        Some(ConfigError::BlankNeedsTwoDecks)
    } else if deck.shoe().len() > shoe_size(deck.deck_count, deck.contains_blank) {
        Some(ConfigError::ShoeOverfull)
    } else if !blank_is_covered(deck.shoe()) {
        Some(ConfigError::BlankUncovered)
    } else if init_bet > MAX_BET {
        Some(ConfigError::BetOverLimit)
    } else {
        None
    }
}

/// Whether a playing card lies under every sentinel of the row.
fn blanks_covered(cards: &Vec<Card>) -> (covered: bool)
    ensures
        covered == blank_is_covered(cards@),
{
    let mut i: usize = 0;
    while i < cards.len()
        invariant
            i <= cards@.len(),
            forall|k: int| 0 <= k < i ==> #[trigger] covered_at(cards@, k),
        decreases cards@.len() - i,
    {
        if cards[i].is_blank() {
            if i == 0 {
                assert(!covered_at(cards@, 0));
                return false;
            }
            if cards[i - 1].is_blank() {
                assert(!covered_at(cards@, i as int));
                return false;
            }
        }
        assert(covered_at(cards@, i as int));
        i += 1;
    }
    true
}

impl<P: PlayStrategy, D: PlayStrategy, B: BetStrategy, C: CountStrategy, I: InsuranceStrategy> Game<
    P,
    D,
    B,
    C,
    I,
> {
    /// Whether the running count is the sum of what the cards played from
    /// this shoe added to it by the game's counting policy.
    pub open spec fn tallied(&self) -> bool {
        self@.tallied(count_by(self.player.counting_strat))
    }

    /// Whether the two games decide by the same policies.
    pub open spec fn same_policies(&self, other: &Self) -> bool {
        &&& self.player.playing_strat == other.player.playing_strat
        &&& self.player.betting_strat == other.player.betting_strat
        &&& self.player.counting_strat == other.player.counting_strat
        &&& self.player.insurance_strat == other.player.insurance_strat
        &&& self.dealer.strategy == other.dealer.strategy
    }

    /// A game before its first round, or the reason why the shoe or the
    /// base stake cannot be played with. The game is well formed if the
    /// hands that the player and the dealer bring are sound.
    pub fn new(
        deck: MultiDeck,
        max_splits: u8,
        init_bet: u32,
        dealer: Dealer<D>,
        player: Player<P, B, C, I>,
        rng: ChaCha8Rng,
        allow_early_surrender: bool,
        allow_late_surrender: bool,
    ) -> (game: Result<Self, ConfigError>)
        ensures
            match game {
                Ok(game) => {
                    &&& config_error(deck, init_bet) is None
                    &&& game@ == (GameView {
                        shoe: deck.shoe(),
                        deck_count: deck.deck_count,
                        contains_blank: deck.contains_blank,
                        hands: views(player.hands@),
                        dealer_hand: view_of(dealer.hand),
                        dealer_cutoff: dealer.cutoff,
                        played: Seq::empty(),
                        running_count: 0,
                        last_winner: Winner::Nobody,
                        last_bet: 0,
                        init_bet,
                        max_splits,
                        allow_early_surrender,
                        allow_late_surrender,
                    })
                    &&& game.player == player
                    &&& game.dealer == dealer
                    &&& game.rng == rng
                    &&& game@.table_is_sound() ==> game@.wf()
                    &&& game.tallied()
                },
                Err(error) => config_error(deck, init_bet) == Some(error),
            },
    {
        if deck.deck_count == 0 {
            return Err(ConfigError::NoDecks);
        }
        if deck.contains_blank && deck.deck_count < 2 {
            return Err(ConfigError::BlankNeedsTwoDecks);
        }
        let full: usize = 52 * (deck.deck_count as usize) + if deck.contains_blank {
            1
        } else {
            0
        };
        if deck.decks.cards.len() > full {
            return Err(ConfigError::ShoeOverfull);
        }
        if !blanks_covered(&deck.decks.cards) {
            return Err(ConfigError::BlankUncovered);
        }
        if init_bet > MAX_BET {
            return Err(ConfigError::BetOverLimit);
        }
        Ok(
            Game {
                deck,
                max_splits,
                init_bet,
                last_bet: 0,
                player,
                dealer,
                played_cards: Vec::new(),
                last_winner: Winner::Nobody,
                rng,
                allow_early_surrender,
                allow_late_surrender,
                running_count: 0,
            },
        )
    }

    /// A game before its first round, with no hands, made from a copy of the
    /// settings' shoe, policies and generator.
    pub fn from_settings(value: Arc<GameSettings<P, D, B, C, I>>) -> (game: Result<
        Self,
        ConfigError,
    >)
        ensures
            match game {
                Ok(game) => {
                    &&& config_error(value.deck, value.init_bet) is None
                    &&& game@ == (GameView {
                        shoe: value.deck.shoe(),
                        deck_count: value.deck.deck_count,
                        contains_blank: value.deck.contains_blank,
                        hands: Seq::empty(),
                        dealer_hand: None,
                        dealer_cutoff: value.dealer_cutoff,
                        played: Seq::empty(),
                        running_count: 0,
                        last_winner: Winner::Nobody,
                        last_bet: 0,
                        init_bet: value.init_bet,
                        max_splits: value.max_splits,
                        allow_early_surrender: value.allow_early_surrender,
                        allow_late_surrender: value.allow_late_surrender,
                    })
                    &&& game.player.playing_strat == value.player_strat
                    &&& game.player.betting_strat == value.betting_strat
                    &&& game.player.counting_strat == value.counting_strat
                    &&& game.player.insurance_strat == value.insurance_strat
                    &&& game.dealer.strategy == value.dealer_strat
                    &&& game@.wf()
                    &&& game.tallied()
                },
                Err(error) => config_error(value.deck, value.init_bet) == Some(error),
            },
    {
        let player = Player {
            playing_strat: value.player_strat,
            betting_strat: value.betting_strat,
            counting_strat: value.counting_strat,
            insurance_strat: value.insurance_strat,
            hands: Vec::new(),
        };
        let dealer = Dealer { strategy: value.dealer_strat, hand: None, cutoff: value.dealer_cutoff };
        let deck = value.deck.clone();
        let game = Game::new(
            deck,
            value.max_splits,
            value.init_bet,
            dealer,
            player,
            fork_rng(&value.rng),
            value.allow_early_surrender,
            value.allow_late_surrender,
        );
        proof {
            assert(views(Seq::<Hand>::empty()) =~= Seq::<HandView>::empty());
        }
        game
    }

    /// Whether the game is well formed, so that a round can be dealt and
    /// played. Every game made by `new` and `from_settings` is, and no
    /// operation of a round changes that; a game whose fields were set by
    /// hand may not be.
    pub fn is_well_formed(&self) -> (ok: bool)
        ensures
            ok == self@.wf(),
    {
        if self.deck.deck_count == 0 || (self.deck.contains_blank && self.deck.deck_count < 2) {
            return false;
        }
        let full: usize = 52 * (self.deck.deck_count as usize) + if self.deck.contains_blank {
            1
        } else {
            0
        };
        let left: usize = self.deck.decks.cards.len();
        if left > full || !blanks_covered(&self.deck.decks.cards) {
            return false;
        }
        if self.init_bet > MAX_BET || self.last_bet > MAX_BET {
            return false;
        }
        if self.player.hands.len() > MAX_HANDS {
            return false;
        }
        let mut i: usize = 0;
        while i < self.player.hands.len()
            invariant
                i <= self.player.hands@.len(),
                forall|k: int| 0 <= k < i ==> (#[trigger] self@.hands[k]).sound(),
            decreases self.player.hands@.len() - i,
        {
            if !self.player.hands[i].is_sound() {
                assert(!self@.hands[i as int].sound());
                return false;
            }
            i += 1;
        }
        match &self.dealer.hand {
            Some(hand) => {
                if !hand.is_sound() {
                    return false;
                }
            },
            None => {},
        }
        let drawn: i64 = (full - left) as i64;
        let count: i64 = self.running_count as i64;
        -128 * drawn <= count && count <= 127 * drawn
    }

    /// Whether a round has been dealt, so that it can be played: every hand
    /// of the player holds at least two cards, and so does the dealer's.
    pub fn is_dealt(&self) -> (ok: bool)
        ensures
            ok == self@.dealt(),
    {
        let mut i: usize = 0;
        while i < self.player.hands.len()
            invariant
                i <= self.player.hands@.len(),
                forall|k: int| 0 <= k < i ==> (#[trigger] self@.hands[k]).cards.len() >= 2,
            decreases self.player.hands@.len() - i,
        {
            if self.player.hands[i].cards.len() < 2 {
                assert(self@.hands[i as int].cards.len() < 2);
                return false;
            }
            i += 1;
        }
        match &self.dealer.hand {
            Some(hand) => hand.cards.len() >= 2,
            None => false,
        }
    }

    /// The dealer's first card, if the dealer holds one.
    pub fn get_dealer_upcard(&self) -> (card: Option<Card>)
        ensures
            card == self@.upcard(),
    {
        match &self.dealer.hand {
            Some(hand) => if hand.cards.len() > 0 {
                Some(hand.cards[0])
            } else {
                None
            },
            None => None,
        }
    }

    /// The strength of the dealer's first card, if the dealer holds one.
    pub fn get_dealer_upcard_str(&self) -> (strength: Option<DealerUpcardStrength>)
        ensures
            strength == self@.upcard_strength(),
    {
        match self.get_dealer_upcard() {
            Some(card) => Some(card.get_dealer_str()),
            None => None,
        }
    }

    /// The true count as the game stands.
    pub fn true_count(&self) -> (count: TrueCount)
        ensures
            count == self@.true_count(),
            count.running_count == self.running_count,
            count.deck_count == self.deck.deck_count,
    {
        TrueCount { running_count: self.running_count, deck_count: self.deck.deck_count }
    }

    /// What a policy is shown when `player_hand` acts.
    pub fn get_state(&self, player_hand: Option<Hand>) -> (state: GameState)
        ensures
            state@ == self@.snapshot(view_of(player_hand)),
    {
        let dealer_hand = match &self.dealer.hand {
            Some(hand) => Some(hand.clone()),
            None => None,
        };
        let played_cards = self.played_cards.clone();
        assert(played_cards@ =~= self.played_cards@);
        GameState {
            init_bet: self.init_bet,
            last_bet: self.last_bet,
            played_cards,
            dealer_upcard: self.get_dealer_upcard(),
            dealer_upcard_str: self.get_dealer_upcard_str(),
            player_hand,
            dealer_hand,
            dealer_cutoff: self.dealer.cutoff,
            contains_blank: self.deck.contains_blank,
            last_winner: self.last_winner,
            allow_early_surrender: self.allow_early_surrender,
            allow_late_surrender: self.allow_late_surrender,
            running_count: self.running_count,
            true_count: self.true_count(),
        }
    }
}

} // verus!
