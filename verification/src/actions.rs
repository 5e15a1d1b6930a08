//! What a round is made of: dealing, drawing, and the moves on a hand.

use crate::betting_strategy::BetStrategy;
use crate::deck::{
    covered_at, is_fresh_shoe, law_fresh_shoe_size, lemma_fresh_shoe, shoe_size, Card,
    MultiDeck, Rank,
};
use crate::hand::{
    lemma_hardened, lemma_total_of_two, lemma_totals, total_points, views, Hand, HandState,
    HandView, MAX_TOTAL_TO_DRAW,
};
use crate::playing_strategy::{count_by, CountStrategy, InsuranceStrategy, PlayStrategy};
use crate::{Game, GameView, MAX_HANDS};
use vstd::prelude::*;

verus! {

/// The hand that comes out of a split: one card of the hand that was split
/// and one card drawn, at the stake of the hand that was split.
pub open spec fn split_child(kept: Card, drawn: Card, init_bet: u32) -> HandView {
    HandView {
        cards: seq![kept, drawn],
        state: HandState::Playing,
        init_bet,
        doubled: false,
        natural: false,
        split_child: true,
    }
}

/// A hand with no cards, not yet in play.
pub open spec fn empty_hand(init_bet: u32) -> HandView {
    HandView {
        cards: Seq::empty(),
        state: HandState::Init,
        init_bet,
        doubled: false,
        natural: false,
        split_child: false,
    }
}

/// The player's hands as a deal finds them: those on the table, or one empty
/// hand at the round's stake where there is none.
pub open spec fn hands_before_deal(hands: Seq<HandView>, init_bet: u32) -> Seq<HandView> {
    if hands.len() == 0 {
        seq![empty_hand(init_bet)]
    } else {
        hands
    }
}

/// The dealer's hand as a deal finds it: the one on the table, or an empty
/// one where there is none, at the round's stake.
pub open spec fn dealer_before_deal(hand: Option<HandView>, init_bet: u32) -> HandView {
    match hand {
        Some(hand) => HandView { init_bet, ..hand },
        None => empty_hand(init_bet),
    }
}

/// Whether `after` is the hand `before` once dealt: in play, with the cards
/// it held and as many more as it takes to make two.
pub open spec fn deals(before: HandView, after: HandView) -> bool {
    &&& after == (HandView { cards: after.cards, state: HandState::Playing, ..before })
    &&& after.cards.len() == if before.cards.len() < 2 {
        2
    } else {
        before.cards.len()
    }
    &&& after.cards.take(before.cards.len() as int) == before.cards
}

/// The cards that a deal gave to a row of hands, in the order in which they
/// were drawn: hand by hand.
pub open spec fn cards_dealt(before: Seq<HandView>, after: Seq<HandView>) -> Seq<Card>
    decreases before.len(),
{
    if before.len() == 0 || after.len() != before.len() {
        Seq::empty()
    } else {
        cards_dealt(before.drop_last(), after.drop_last()) + after.last().cards.skip(
            before.last().cards.len() as int,
        )
    }
}

impl GameView {
    /// Whether `post` is this game after a round was dealt at the given
    /// stake: every hand is dealt, the player's hands first, in their order,
    /// and the dealer's last, and the shoe, the history and the count are
    /// those after the draws that gave the cards dealt, in that order.
    pub open spec fn deals_round(
        &self,
        post: GameView,
        init_bet: u32,
        delta: spec_fn(Card) -> i8,
    ) -> bool {
        let start = hands_before_deal(self.hands, init_bet);
        let dealer = dealer_before_deal(self.dealer_hand, init_bet);
        &&& post.hands.len() == start.len()
        &&& forall|i: int| 0 <= i < start.len() ==> deals(start[i], #[trigger] post.hands[i])
        &&& post.dealer_hand matches Some(hand) && deals(dealer, hand)
        &&& self.draws_all(
            post.with_table_of(*self),
            cards_dealt(start, post.hands) + post.dealer_hand.unwrap().cards.skip(
                dealer.cards.len() as int,
            ),
            delta,
        )
    }
}

/// A hand stays sound when it takes a card, if its total left room for one.
pub proof fn lemma_hit_is_sound(hand: HandView, card: Card)
    requires
        hand.total() <= MAX_TOTAL_TO_DRAW,
    ensures
        hand.hit(card).sound(),
        total_points(hand.cards.push(card)) == hand.total() + card.points(),
        total_points(hand.cards.push(card)) <= 255,
{
    let cards = hand.cards.push(card);
    assert(cards.drop_last() =~= hand.cards);
    lemma_hardened(cards);
    lemma_totals(cards, 0);
}

impl<P: PlayStrategy, D: PlayStrategy, B: BetStrategy, C: CountStrategy, I: InsuranceStrategy> Game<
    P,
    D,
    B,
    C,
    I,
> {
    /// Deals a round at the given stake. The player gets a hand if there is
    /// none, the dealer likewise; every hand is put in play; and every hand
    /// with fewer than two cards is dealt cards until it holds two, the
    /// player's hands first, in their order, and the dealer's last. A hand
    /// that holds two cards or more gets none.
    pub fn deal(&mut self, init_bet: u32)
        requires
            old(self)@.shoe_is_sound(),
        ensures
            old(self)@.deals_round(
                final(self)@,
                init_bet,
                count_by(final(self).player.counting_strat),
            ),
            old(self)@.same_rules(final(self)@),
            final(self).same_policies(old(self)),
            final(self)@.shoe_is_sound(),
            old(self)@.wf() ==> final(self)@.wf(),
            old(self).tallied() ==> final(self).tallied(),
    {
        let ghost delta = count_by(self.player.counting_strat);
        if self.player.hands.is_empty() {
            self.player.hands.push(Hand::new(init_bet));
        }
        let ghost start = self@.hands;
        let ghost mut drawn: Seq<Card> = Seq::empty();
        proof {
            assert(start =~= hands_before_deal(old(self)@.hands, init_bet));
            old(self)@.lemma_draws_none(delta);
            assert(self@.with_table_of(old(self)@) == old(self)@);
            assert(start.take(0) =~= Seq::<HandView>::empty());
        }
        let count: usize = self.player.hands.len();
        let mut i: usize = 0;
        while i < count
            invariant
                i <= count,
                count == start.len(),
                self@.hands.len() == count,
                self@.shoe_is_sound(),
                old(self)@.wf() ==> self@.wf(),
                self.same_policies(old(self)),
                old(self).tallied() ==> self.tallied(),
                old(self)@.same_rules(self@),
                delta == count_by(self.player.counting_strat),
                forall|k: int| 0 <= k < i ==> deals(start[k], #[trigger] self@.hands[k]),
                forall|k: int| i <= k < count ==> #[trigger] self@.hands[k] == start[k],
                self@.dealer_hand == old(self)@.dealer_hand,
                old(self)@.draws_all(self@.with_table_of(old(self)@), drawn, delta),
                drawn == cards_dealt(start.take(i as int), self@.hands.take(i as int)),
            decreases count - i,
        {
            let ghost done = self@.hands.take(i as int);
            let ghost base = drawn;
            let ghost unset = self@;
            let hand = &mut self.player.hands[i];
            hand.set_state(HandState::Playing);
            proof {
                assert(unset.hands[i as int] == start[i as int]);
                assert(self@.hands =~= unset.hands.update(
                    i as int,
                    (HandView { state: HandState::Playing, ..unset.hands[i as int] }),
                ));
                assert(self@.with_table_of(old(self)@) == unset.with_table_of(old(self)@));
                assert(self@.hands.take(i as int) =~= done);
                assert(self@.hands[i as int].cards.skip(start[i as int].cards.len() as int)
                    =~= Seq::<Card>::empty());
                assert(self@.hands[i as int].cards.take(start[i as int].cards.len() as int)
                    =~= start[i as int].cards);
            }
            while self.player.hands[i].cards.len() < 2
                invariant
                    i < count,
                    count == start.len(),
                    self@.hands.len() == count,
                    self@.shoe_is_sound(),
                old(self)@.wf() ==> self@.wf(),
                    self.same_policies(old(self)),
                    old(self).tallied() ==> self.tallied(),
                    old(self)@.same_rules(self@),
                    delta == count_by(self.player.counting_strat),
                    forall|k: int| 0 <= k < i ==> deals(start[k], #[trigger] self@.hands[k]),
                    forall|k: int| i < k < count ==> #[trigger] self@.hands[k] == start[k],
                    self@.hands.take(i as int) == done,
                    self@.hands[i as int] == (HandView {
                        cards: self@.hands[i as int].cards,
                        state: HandState::Playing,
                        ..start[i as int]
                    }),
                    start[i as int].cards.len() <= self@.hands[i as int].cards.len(),
                    self@.hands[i as int].cards.len() <= 2 || self@.hands[i as int].cards.len()
                        == start[i as int].cards.len(),
                    self@.hands[i as int].cards.take(start[i as int].cards.len() as int)
                        == start[i as int].cards,
                    self@.dealer_hand == old(self)@.dealer_hand,
                    old(self)@.draws_all(self@.with_table_of(old(self)@), drawn, delta),
                    base == cards_dealt(start.take(i as int), done),
                    drawn == base + self@.hands[i as int].cards.skip(
                        start[i as int].cards.len() as int,
                    ),
                decreases 2 - self@.hands[i as int].cards.len(),
            {
                let ghost before = self@;
                let card = self.draw();
                let ghost after = self@;
                let hand = &mut self.player.hands[i];
                hand.cards.push(card);
                proof {
                    let held = before.hands[i as int].cards;
                    lemma_totals(held, 0);
                    assert(held.push(card).drop_last() =~= held);
                    assert(self@.hands =~= before.hands.update(
                        i as int,
                        (HandView { cards: held.push(card), ..before.hands[i as int] }),
                    ));
                    old(self)@.lemma_draws_one_more(
                        before.with_table_of(old(self)@),
                        after.with_table_of(old(self)@),
                        drawn,
                        card,
                        delta,
                    );
                    drawn = drawn.push(card);
                    assert(self@.with_table_of(old(self)@) == after.with_table_of(old(self)@));
                    assert(self@.hands.take(i as int) =~= done);
                    let from = start[i as int].cards.len() as int;
                    assert(held.push(card).skip(from) =~= held.skip(from).push(card));
                    assert(held.push(card).take(from) =~= held.take(from));
                    assert(drawn =~= base + self@.hands[i as int].cards.skip(from));
                }
            }
            i += 1;
            proof {
                let now = self@.hands.take(i as int);
                let then = start.take(i as int);
                assert(now.drop_last() =~= done);
                assert(then.drop_last() =~= start.take(i - 1));
                assert(now.last() == self@.hands[i - 1]);
                assert(then.last() == start[i - 1]);
            }
        }
        proof {
            assert(start.take(count as int) =~= start);
            assert(self@.hands.take(count as int) =~= self@.hands);
        }
        let ghost dealt = drawn;
        let ghost dealer = dealer_before_deal(old(self)@.dealer_hand, init_bet);
        let mut hand = match self.dealer.hand.take() {
            Some(hand) => hand,
            None => Hand::new(init_bet),
        };
        hand.init_bet = init_bet;
        hand.set_state(HandState::Playing);
        proof {
            assert(hand@.cards.skip(dealer.cards.len() as int) =~= Seq::<Card>::empty());
            assert(hand@.cards.take(dealer.cards.len() as int) =~= dealer.cards);
        }
        while hand.cards.len() < 2
            invariant
                self@.shoe_is_sound(),
                old(self)@.wf() ==> self@.wf(),
                self@.dealer_hand is None,
                self.same_policies(old(self)),
                old(self).tallied() ==> self.tallied(),
                old(self)@.same_rules(self@),
                delta == count_by(self.player.counting_strat),
                self@.hands.len() == start.len(),
                forall|k: int| 0 <= k < start.len() ==> deals(start[k], #[trigger] self@.hands[k]),
                hand@ == (HandView { cards: hand@.cards, state: HandState::Playing, ..dealer }),
                dealer.cards.len() <= hand@.cards.len(),
                hand@.cards.len() <= 2 || hand@.cards.len() == dealer.cards.len(),
                hand@.cards.take(dealer.cards.len() as int) == dealer.cards,
                old(self)@.wf() ==> hand@.sound(),
                old(self)@.draws_all(self@.with_table_of(old(self)@), drawn, delta),
                dealt == cards_dealt(start, self@.hands),
                drawn == dealt + hand@.cards.skip(dealer.cards.len() as int),
            decreases 2 - hand@.cards.len(),
        {
            let ghost before = self@;
            let ghost held = hand@.cards;
            let card = self.draw();
            let ghost after = self@;
            hand.cards.push(card);
            proof {
                lemma_totals(held, 0);
                assert(held.push(card).drop_last() =~= held);
                old(self)@.lemma_draws_one_more(
                    before.with_table_of(old(self)@),
                    after.with_table_of(old(self)@),
                    drawn,
                    card,
                    delta,
                );
                drawn = drawn.push(card);
                let from = dealer.cards.len() as int;
                assert(held.push(card).skip(from) =~= held.skip(from).push(card));
                assert(held.push(card).take(from) =~= held.take(from));
                assert(drawn =~= dealt + hand@.cards.skip(from));
            }
        }
        let ghost undealt = self@;
        self.dealer.hand = Some(hand);
        proof {
            assert(self@.with_table_of(old(self)@) == undealt.with_table_of(old(self)@));
        }
    }

    /// Takes the hands off the table. The shoe stays as it is.
    pub fn reset_hands(&mut self)
        ensures
            final(self)@ == (GameView { hands: Seq::empty(), dealer_hand: None, ..old(self)@ }),
            final(self).same_policies(old(self)),
    {
        self.player.hands = Vec::new();
        self.dealer.hand = None;
        assert(views(self.player.hands@) =~= Seq::<HandView>::empty());
    }

    /// Rebuilds the shoe from the same number of decks: shuffled, and with
    /// the sentinel put in where the shoe uses it. The history of played
    /// cards starts again.
    pub fn new_deck(&mut self)
        requires
            old(self).deck.contains_blank ==> old(self).deck.deck_count >= 2,
        ensures
            is_fresh_shoe(final(self)@.shoe, old(self)@.deck_count, old(self)@.contains_blank),
            final(self)@.shoe.len() == shoe_size(old(self)@.deck_count, old(self)@.contains_blank),
            final(self)@ == (GameView {
                shoe: final(self)@.shoe,
                played: Seq::empty(),
                ..old(self)@
            }),
            final(self).same_policies(old(self)),
    {
        self.played_cards.clear();
        let mut new_deck = MultiDeck::new(self.deck.deck_count, self.deck.contains_blank);
        new_deck.shuffle(&mut self.rng);
        if new_deck.contains_blank {
            let ghost shuffled = new_deck.shoe();
            new_deck.insert_blank(&mut self.rng);
            proof {
                let offset = choose|offset: int|
                    #![trigger shuffled.insert(offset, crate::deck::blank_card())]
                    crate::deck::BLANK_OFFSET_MIN <= offset < crate::deck::BLANK_OFFSET_END
                        && new_deck.shoe() == shuffled.insert(offset, crate::deck::blank_card());
                shuffled.insert_ensures(offset, crate::deck::blank_card());
                assert(new_deck.shoe().remove(offset) =~= shuffled);
            }
        }
        self.deck = new_deck;
        proof {
            law_fresh_shoe_size(self@.shoe, self@.deck_count, self@.contains_blank);
        }
    }

    /// Takes one card from the shoe for a hand. A sentinel on top is put
    /// aside and the card under it is taken. An empty shoe is rebuilt first,
    /// and the history and the count start again. The card taken is
    /// recorded and counted. It is never the sentinel.
    pub fn draw(&mut self) -> (card: Card)
        requires
            old(self)@.shoe_is_sound(),
        ensures
            card.rank != Rank::Blank,
            old(self)@.draws(final(self)@, card, final(self).player.counting_strat.delta(card)),
            final(self).same_policies(old(self)),
            final(self)@.shoe_is_sound(),
            old(self)@.wf() ==> final(self)@.wf(),
            old(self).tallied() ==> final(self).tallied(),
            final(self)@.played.len() > 0,
            final(self)@.played.last() == card,
    {
        let top = self.deck.draw();
        match top {
            Some(card) => {
                if !card.is_blank() {
                    proof {
                        assert forall|i: int| 0 <= i < self@.shoe.len() implies #[trigger] covered_at(
                            self@.shoe,
                            i,
                        ) by {
                            assert(covered_at(old(self)@.shoe, i));
                        }
                    }
                    self.played_cards.push(card);
                    self.update_count(&card);
                    proof {
                        old(self)@.law_draw_keeps_tally(
                            self@,
                            card,
                            count_by(self.player.counting_strat),
                        );
                    }
                    return card;
                }
                proof {
                    let n = old(self)@.shoe.len() as int;
                    assert(covered_at(old(self)@.shoe, n - 1));
                }
            },
            None => {
                self.new_deck();
                self.running_count = 0;
                self.played_cards = Vec::new();
                proof {
                    lemma_fresh_shoe(self@.shoe, self@.deck_count, self@.contains_blank);
                }
            },
        }
        let ghost before = self@;
        let next = self.deck.draw();
        let card = next.unwrap();
        proof {
            assert forall|i: int| 0 <= i < self@.shoe.len() implies #[trigger] covered_at(
                self@.shoe,
                i,
            ) by {
                if old(self)@.shoe.len() == 0 {
                    assert(covered_at(before.shoe, i));
                } else {
                    assert(covered_at(old(self)@.shoe, i));
                }
            }
            if old(self)@.shoe.len() == 0 {
                assert(self@.shoe.push(card) =~= before.shoe);
            }
        }
        self.played_cards.push(card);
        self.update_count(&card);
        proof {
            if old(self)@.shoe.len() == 0 {
                assert(self@.played =~= seq![card]);
            }
            old(self)@.law_draw_keeps_tally(self@, card, count_by(self.player.counting_strat));
        }
        card
    }

    /// Adds to the running count what the counting policy gives for the
    /// card. The true count follows: it is the running count over the number
    /// of decks.
    pub fn update_count(&mut self, card: &Card)
        requires
            card.rank != Rank::Blank,
            i32::MIN + 128 <= old(self).running_count <= i32::MAX - 127,
        ensures
            final(self)@ == (GameView {
                running_count: (old(self).running_count + final(self).player.counting_strat.delta(
                    *card,
                )) as i32,
                ..old(self)@
            }),
            final(self).running_count == old(self).running_count
                + final(self).player.counting_strat.delta(*card),
            final(self)@.true_count().running_count == final(self).running_count,
            final(self)@.true_count().deck_count == old(self).deck.deck_count,
            final(self).same_policies(old(self)),
    {
        let delta: i8 = self.player.counting_strat.get_decision(*card);
        self.running_count = self.running_count + delta as i32;
    }

    /// Gives the dealer one card. Where the card takes the total over 21 and
    /// the hand holds an ace that counts 11, every such ace is made to count
    /// 1; else the hand stays over 21. The dealer must hold a hand, and its
    /// total must leave room for a card.
    pub fn hit_dealer(&mut self)
        requires
            old(self)@.shoe_is_sound(),
            old(self)@.dealer_hand matches Some(hand) && hand.total() <= MAX_TOTAL_TO_DRAW,
        ensures
            old(self)@.draws(
                final(self)@.with_table_of(old(self)@),
                final(self)@.played.last(),
                final(self).player.counting_strat.delta(final(self)@.played.last()),
            ),
            final(self)@.hands == old(self)@.hands,
            final(self)@.dealer_hand == Some(
                old(self)@.dealer_hand.unwrap().hit(final(self)@.played.last()),
            ),
            final(self)@.played.last().rank != Rank::Blank,
            final(self).same_policies(old(self)),
            final(self)@.shoe_is_sound(),
            old(self)@.wf() ==> final(self)@.wf(),
            old(self).tallied() ==> final(self).tallied(),
    {
        let new_card = self.draw();
        let ghost drawn = self@;
        proof {
            lemma_hit_is_sound(old(self)@.dealer_hand.unwrap(), new_card);
        }
        match &mut self.dealer.hand {
            Some(hand) => {
                hand.cards.push(new_card);
                if hand.value() > 21 && hand.contains_soft_ace() {
                    hand.deflate_ace();
                }
            },
            None => {},
        }
        assert(self@.with_table_of(old(self)@) == drawn);
    }

    /// Gives the player's hand at `index` one card. Where the card takes the
    /// total over 21 and the hand holds an ace that counts 11, every such ace
    /// is made to count 1; else the hand stays over 21. The hand's total must
    /// leave room for a card.
    pub fn hit_player(&mut self, index: usize)
        requires
            old(self)@.shoe_is_sound(),
            index < old(self)@.hands.len(),
            old(self)@.hands[index as int].total() <= MAX_TOTAL_TO_DRAW,
        ensures
            old(self)@.draws(
                final(self)@.with_table_of(old(self)@),
                final(self)@.played.last(),
                final(self).player.counting_strat.delta(final(self)@.played.last()),
            ),
            final(self)@.hands == old(self)@.hands.update(
                index as int,
                old(self)@.hands[index as int].hit(final(self)@.played.last()),
            ),
            final(self)@.dealer_hand == old(self)@.dealer_hand,
            final(self)@.played.last().rank != Rank::Blank,
            final(self).same_policies(old(self)),
            final(self)@.shoe_is_sound(),
            old(self)@.wf() ==> final(self)@.wf(),
            old(self).tallied() ==> final(self).tallied(),
    {
        let draw = self.draw();
        let ghost drawn = self@;
        proof {
            lemma_hit_is_sound(old(self)@.hands[index as int], draw);
        }
        let hand = &mut self.player.hands[index];
        hand.cards.push(draw);
        if hand.value() > 21 && hand.contains_soft_ace() {
            hand.deflate_ace();
        }
        proof {
            assert(self@.hands =~= old(self)@.hands.update(
                index as int,
                old(self)@.hands[index as int].hit(draw),
            ));
            assert(self@.with_table_of(old(self)@) == drawn);
        }
    }

    /// Doubles down on the player's hand at `index`: the hand takes exactly
    /// one card, as it comes, and is finished. A hand of two cards holds
    /// three afterwards.
    pub fn double_hand(&mut self, index: usize)
        requires
            old(self)@.shoe_is_sound(),
            index < old(self)@.hands.len(),
        ensures
            old(self)@.draws(
                final(self)@.with_table_of(old(self)@),
                final(self)@.played.last(),
                final(self).player.counting_strat.delta(final(self)@.played.last()),
            ),
            final(self)@.hands == old(self)@.hands.update(
                index as int,
                (HandView {
                    cards: old(self)@.hands[index as int].cards.push(final(self)@.played.last()),
                    doubled: true,
                    state: HandState::Finished,
                    ..old(self)@.hands[index as int]
                }),
            ),
            final(self)@.hands[index as int].cards.len() == old(self)@.hands[index as int].cards.len()
                + 1,
            final(self)@.dealer_hand == old(self)@.dealer_hand,
            final(self)@.played.last().rank != Rank::Blank,
            final(self).same_policies(old(self)),
            final(self)@.shoe_is_sound(),
            old(self)@.wf() && old(self)@.hands[index as int].total() <= MAX_TOTAL_TO_DRAW
                ==> final(self)@.wf(),
            old(self).tallied() ==> final(self).tallied(),
    {
        let single_draw = self.draw();
        let ghost drawn = self@;
        proof {
            if old(self)@.hands[index as int].total() <= MAX_TOTAL_TO_DRAW {
                lemma_hit_is_sound(old(self)@.hands[index as int], single_draw);
            }
        }
        let hand = &mut self.player.hands[index];
        hand.doubled = true;
        hand.cards.push(single_draw);
        hand.state = HandState::Finished;
        proof {
            assert(self@.hands =~= old(self)@.hands.update(
                index as int,
                (HandView {
                    cards: old(self)@.hands[index as int].cards.push(single_draw),
                    doubled: true,
                    state: HandState::Finished,
                    ..old(self)@.hands[index as int]
                }),
            ));
            assert(self@.with_table_of(old(self)@) == drawn);
        }
    }

    /// Splits the player's hand at `index`, which is two cards of one rank.
    /// Two hands take its place at the end of the row: the first holds its
    /// second card, the second its first card, each with one card drawn, at
    /// the stake of the hand that was split.
    pub fn split_hand(&mut self, index: usize)
        requires
            old(self)@.shoe_is_sound(),
            index < old(self)@.hands.len(),
            old(self)@.hands[index as int].is_pair(),
        ensures
            final(self)@.hands.len() == old(self)@.hands.len() + 1,
            ({
                let parent = old(self)@.hands[index as int];
                let first = final(self)@.hands[final(self)@.hands.len() - 2].cards[1];
                let second = final(self)@.hands[final(self)@.hands.len() - 1].cards[1];
                &&& final(self)@.hands == old(self)@.hands.remove(index as int).push(
                    split_child(parent.cards[1], first, parent.init_bet),
                ).push(split_child(parent.cards[0], second, parent.init_bet))
                &&& old(self)@.draws_all(
                    final(self)@.with_table_of(old(self)@),
                    seq![first, second],
                    count_by(final(self).player.counting_strat),
                )
                &&& first.rank != Rank::Blank
                &&& second.rank != Rank::Blank
            }),
            final(self)@.dealer_hand == old(self)@.dealer_hand,
            old(self)@.same_rules(final(self)@),
            final(self).same_policies(old(self)),
            final(self)@.shoe_is_sound(),
            old(self)@.wf() && old(self)@.hands.len() < MAX_HANDS ==> final(self)@.wf(),
            old(self).tallied() ==> final(self).tallied(),
    {
        let x_card = self.player.hands[index].cards[1];
        let y_card = self.player.hands[index].cards[0];
        let init_bet = self.player.hands[index].init_bet;
        let ghost delta = count_by(self.player.counting_strat);

        let mut x_cards: Vec<Card> = Vec::new();
        x_cards.push(x_card);
        let mut x_hand = Hand::from_cards(x_cards, init_bet, false, false, true);
        let first = self.draw();
        x_hand.cards.push(first);
        let ghost mid = self@;

        let mut y_cards: Vec<Card> = Vec::new();
        y_cards.push(y_card);
        let mut y_hand = Hand::from_cards(y_cards, init_bet, false, false, true);
        let second = self.draw();
        y_hand.cards.push(second);
        let ghost drawn = self@;

        proof {
            assert(x_hand@.cards =~= seq![x_card, first]);
            assert(y_hand@.cards =~= seq![y_card, second]);
            lemma_total_of_two(x_card, first);
            lemma_total_of_two(y_card, second);
            old(self)@.lemma_draws_none(delta);
            old(self)@.lemma_draws_one_more(old(self)@, mid, Seq::empty(), first, delta);
            old(self)@.lemma_draws_one_more(mid, drawn, seq![first], second, delta);
            assert(seq![first].push(second) =~= seq![first, second]);
            assert(Seq::<Card>::empty().push(first) =~= seq![first]);
        }
        self.player.hands.push(x_hand);
        self.player.hands.push(y_hand);
        self.player.hands.remove(index);
        proof {
            let parent = old(self)@.hands[index as int];
            assert(self@.hands =~= old(self)@.hands.remove(index as int).push(
                split_child(parent.cards[1], first, parent.init_bet),
            ).push(split_child(parent.cards[0], second, parent.init_bet)));
            assert(self@.with_table_of(old(self)@) == drawn);
        }
    }

    /// Marks the player's hand at `index` as a natural.
    pub fn player_natural(&mut self, index: usize)
        requires
            index < old(self)@.hands.len(),
        ensures
            final(self)@ == (GameView {
                hands: old(self)@.hands.update(
                    index as int,
                    (HandView { natural: true, ..old(self)@.hands[index as int] }),
                ),
                ..old(self)@
            }),
            final(self).same_policies(old(self)),
    {
        let hand = &mut self.player.hands[index];
        hand.natural = true;
        assert(self@.hands =~= old(self)@.hands.update(
            index as int,
            (HandView { natural: true, ..old(self)@.hands[index as int] }),
        ));
    }

    /// The player stands on the hand at `index`: the hand is finished.
    pub fn stand_player(&mut self, index: usize)
        requires
            index < old(self)@.hands.len(),
        ensures
            final(self)@ == (GameView {
                hands: old(self)@.hands.update(
                    index as int,
                    (HandView { state: HandState::Finished, ..old(self)@.hands[index as int] }),
                ),
                ..old(self)@
            }),
            final(self).same_policies(old(self)),
    {
        let hand = &mut self.player.hands[index];
        hand.set_state(HandState::Finished);
        assert(self@.hands =~= old(self)@.hands.update(
            index as int,
            (HandView { state: HandState::Finished, ..old(self)@.hands[index as int] }),
        ));
    }

    /// The player gives up the hand at `index`, early or late. No more cards
    /// are drawn for it.
    pub fn surrender(&mut self, index: usize, state: HandState)
        requires
            index < old(self)@.hands.len(),
            state == HandState::EarlySurrender || state == HandState::LateSurrender,
        ensures
            final(self)@ == (GameView {
                hands: old(self)@.hands.update(
                    index as int,
                    (HandView { state, ..old(self)@.hands[index as int] }),
                ),
                ..old(self)@
            }),
            final(self).same_policies(old(self)),
    {
        let hand = &mut self.player.hands[index];
        hand.set_state(state);
        assert(self@.hands =~= old(self)@.hands.update(
            index as int,
            (HandView { state, ..old(self)@.hands[index as int] }),
        ));
    }

    /// Puts the given hands in front of the player.
    pub fn set_player_hands(&mut self, new_hands: Vec<Hand>)
        ensures
            final(self)@ == (GameView { hands: views(new_hands@), ..old(self)@ }),
            final(self).same_policies(old(self)),
    {
        self.player.hands = new_hands;
    }

    /// Puts the given hand in front of the dealer.
    pub fn set_dealer_hand(&mut self, new_hand: Hand)
        ensures
            final(self)@ == (GameView { dealer_hand: Some(new_hand@), ..old(self)@ }),
            final(self).same_policies(old(self)),
    {
        self.dealer.hand = Some(new_hand);
    }
}

} // verus!
