//! A hand of cards: its total, its soft aces, and its place in a round.

use crate::deck::{Card, Rank};
use vstd::prelude::*;
use vstd::string::StringExecFns;

verus! {

/// Where a hand stands in its round.
#[derive(Debug, Copy, Clone, PartialEq, Eq, Structural)]
pub enum HandState {
    /// No cards dealt yet.
    Init,
    /// Its owner still acts on it.
    Playing,
    /// Given up before the dealer looked for a natural.
    EarlySurrender,
    /// Given up after the dealer looked for a natural.
    LateSurrender,
    /// No more action is taken on it.
    Finished,
}

/// The sum of the cards' points as they stand: a soft ace 11, a hard ace 1.
pub open spec fn total_points(cards: Seq<Card>) -> int
    decreases cards.len(),
{
    if cards.len() == 0 {
        0
    } else {
        total_points(cards.drop_last()) + cards.last().points()
    }
}

/// The sum of the cards' points with every ace taken as 1.
pub open spec fn hard_total(cards: Seq<Card>) -> int
    decreases cards.len(),
{
    if cards.len() == 0 {
        0
    } else {
        hard_total(cards.drop_last()) + cards.last().hard_points()
    }
}

/// The number of aces among the cards that count 11.
pub open spec fn soft_ace_count(cards: Seq<Card>) -> int
    decreases cards.len(),
{
    if cards.len() == 0 {
        0
    } else {
        soft_ace_count(cards.drop_last()) + if cards.last().rank == Rank::Ace
            && cards.last().soft {
            1int
        } else {
            0int
        }
    }
}

/// Whether one of the cards is an ace that counts 11.
pub open spec fn holds_soft_ace(cards: Seq<Card>) -> bool {
    exists|i: int| 0 <= i < cards.len() && (#[trigger] cards[i]).rank == Rank::Ace && cards[i].soft
}

/// The cards with every ace that counts 11 made to count 1.
pub open spec fn hardened(cards: Seq<Card>) -> Seq<Card> {
    Seq::new(cards.len(), |i: int| cards[i].hardened())
}

/// The cards in short, one after another.
pub open spec fn cards_text(cards: Seq<Card>) -> Seq<char>
    decreases cards.len(),
{
    if cards.len() == 0 {
        Seq::empty()
    } else {
        cards_text(cards.drop_last()) + cards.last().short_name()
    }
}

/// Whether none of the cards is an ace.
pub open spec fn holds_no_ace(cards: Seq<Card>) -> bool {
    forall|i: int| 0 <= i < cards.len() ==> (#[trigger] cards[i]).rank != Rank::Ace
}

/// The largest total a hand can have for its value to be taken.
pub const MAX_TOTAL: u8 = 255;

/// The largest total a hand can have and still take a card: any card adds
/// at most 11.
pub const MAX_TOTAL_TO_DRAW: u8 = 244;

/// A hand as a plain value.
pub struct HandView {
    pub cards: Seq<Card>,
    pub state: HandState,
    pub init_bet: u32,
    pub doubled: bool,
    pub natural: bool,
    pub split_child: bool,
}

impl HandView {
    /// The hand's value.
    pub open spec fn total(&self) -> int {
        total_points(self.cards)
    }

    /// Whether the hand was given up.
    pub open spec fn is_surrendered(&self) -> bool {
        self.state == HandState::EarlySurrender || self.state == HandState::LateSurrender
    }

    /// Whether no more action is taken on the hand: it is finished or was
    /// given up.
    pub open spec fn is_finished(&self) -> bool {
        self.state == HandState::Finished || self.is_surrendered()
    }

    /// Whether the hand is an untouched two-card 21.
    pub open spec fn is_natural(&self) -> bool {
        self.cards.len() == 2 && !self.split_child && self.total() == 21
    }

    /// Whether the hand is two cards of one rank.
    pub open spec fn is_pair(&self) -> bool {
        self.cards.len() == 2 && self.cards[0].rank == self.cards[1].rank
    }

    /// Whether the hand's value fits the type it is taken in.
    pub open spec fn sound(&self) -> bool {
        self.total() <= MAX_TOTAL
    }

    /// The hand after it took `card`: where the card takes the total over 21
    /// and the hand holds an ace that counts 11, every such ace is made to
    /// count 1.
    pub open spec fn hit(&self, card: Card) -> HandView {
        let cards = self.cards.push(card);
        HandView {
            cards: if total_points(cards) > 21 && holds_soft_ace(cards) {
                hardened(cards)
            } else {
                cards
            },
            ..*self
        }
    }
}

/// A player's or the dealer's hand.
#[derive(Debug, PartialEq, Eq)]
pub struct Hand {
    /// The cards in the order in which they came.
    pub cards: Vec<Card>,
    pub state: HandState,
    /// The stake put on the hand when it was dealt.
    pub init_bet: u32,
    /// Whether the hand was doubled down.
    pub doubled: bool,
    /// Whether the hand was found to be an untouched two-card 21.
    pub natural: bool,
    /// Whether the hand came out of a split.
    pub split_child: bool,
}

impl View for Hand {
    type V = HandView;

    open spec fn view(&self) -> HandView {
        HandView {
            cards: self.cards@,
            state: self.state,
            init_bet: self.init_bet,
            doubled: self.doubled,
            natural: self.natural,
            split_child: self.split_child,
        }
    }
}

/// The plain values of a row of hands.
pub open spec fn views(hands: Seq<Hand>) -> Seq<HandView> {
    Seq::new(hands.len(), |i: int| hands[i]@)
}

/// The plain value of a hand that may be absent.
pub open spec fn view_of(hand: Option<Hand>) -> Option<HandView> {
    match hand {
        Some(hand) => Some(hand@),
        None => None,
    }
}

/// Every prefix of a row of cards totals no more than the row, and the hard
/// total is no more than the total.
pub proof fn lemma_totals(cards: Seq<Card>, n: int)
    requires
        0 <= n <= cards.len(),
    ensures
        0 <= total_points(cards.take(n)) <= total_points(cards),
        0 <= hard_total(cards) <= total_points(cards),
        total_points(cards) == hard_total(cards) + 10 * soft_ace_count(cards),
        0 <= soft_ace_count(cards),
        hard_total(cards) <= 10 * cards.len(),
        total_points(cards) <= 11 * cards.len(),
    decreases cards.len(),
{
    if cards.len() == 0 {
        assert(cards.take(n) =~= cards);
    } else if n == cards.len() {
        assert(cards.take(n) =~= cards);
        lemma_totals(cards.drop_last(), n - 1);
    } else {
        lemma_totals(cards.drop_last(), n);
        assert(cards.drop_last().take(n) =~= cards.take(n));
    }
}

/// Hardening the aces that count 11 takes 10 off the total for each of them,
/// leaves no ace that counts 11, and keeps the hard total.
pub proof fn lemma_hardened(cards: Seq<Card>)
    ensures
        total_points(hardened(cards)) == total_points(cards) - 10 * soft_ace_count(cards),
        total_points(hardened(cards)) == hard_total(cards),
        hard_total(hardened(cards)) == hard_total(cards),
        soft_ace_count(hardened(cards)) == 0,
        !holds_soft_ace(hardened(cards)),
        holds_soft_ace(cards) <==> soft_ace_count(cards) > 0,
    decreases cards.len(),
{
    if cards.len() > 0 {
        let rest = cards.drop_last();
        lemma_hardened(rest);
        assert(hardened(cards).drop_last() =~= hardened(rest));
        assert(hardened(cards).last() == cards.last().hardened());
        if holds_soft_ace(cards) {
            let i = choose|i: int|
                0 <= i < cards.len() && (#[trigger] cards[i]).rank == Rank::Ace && cards[i].soft;
            if i < cards.len() - 1 {
                assert(rest[i].rank == Rank::Ace && rest[i].soft);
            }
        }
        if holds_soft_ace(rest) {
            let i = choose|i: int|
                0 <= i < rest.len() && (#[trigger] rest[i]).rank == Rank::Ace && rest[i].soft;
            assert(cards[i].rank == Rank::Ace && cards[i].soft);
        }
        if cards.last().rank == Rank::Ace && cards.last().soft {
            assert(cards[cards.len() - 1].rank == Rank::Ace);
        }
        lemma_totals(rest, 0);
    }
}

/// The total of two cards is the sum of their points.
pub proof fn lemma_total_of_two(first: Card, second: Card)
    ensures
        total_points(seq![first, second]) == first.points() + second.points(),
{
    let cards = seq![first, second];
    assert(cards.drop_last() =~= seq![first]);
    assert(seq![first].drop_last() =~= Seq::<Card>::empty());
    reveal_with_fuel(total_points, 3);
}

/// Taking a card out of a row takes its points off the total.
pub proof fn lemma_total_without(cards: Seq<Card>, i: int)
    requires
        0 <= i < cards.len(),
    ensures
        total_points(cards) == total_points(cards.remove(i)) + cards[i].points(),
    decreases cards.len(),
{
    if i == cards.len() - 1 {
        assert(cards.remove(i) =~= cards.drop_last());
    } else {
        lemma_total_without(cards.drop_last(), i);
        assert(cards.remove(i).drop_last() =~= cards.drop_last().remove(i));
        assert(cards.remove(i).last() == cards.last());
    }
}

/// The value of a hand does not depend on the order of its cards: two rows
/// that hold the same cards have the same total. This holds of every hand,
/// so of every hand without an ace.
pub proof fn law_value_is_order_independent(first: Seq<Card>, second: Seq<Card>)
    requires
        first.to_multiset() == second.to_multiset(),
    ensures
        total_points(first) == total_points(second),
    decreases first.len(),
{
    first.to_multiset_ensures();
    second.to_multiset_ensures();
    if first.len() > 0 {
        let card = first.last();
        let rest = first.drop_last();
        rest.to_multiset_ensures();
        assert(rest.push(card) =~= first);
        assert(first[first.len() - 1] == card);
        assert(first.contains(card));
        assert(first.to_multiset().count(card) > 0);
        assert(second.to_multiset().count(card) > 0);
        assert(second.contains(card));
        let i = choose|i: int| 0 <= i < second.len() && second[i] == card;
        assert(rest.to_multiset() =~= first.to_multiset().remove(card));
        assert(second.remove(i).to_multiset() =~= rest.to_multiset());
        law_value_is_order_independent(rest, second.remove(i));
        lemma_total_without(second, i);
    }
}

/// The value of a hand without an ace is the sum of the points of its
/// ranks, whether its cards are soft or hard.
pub proof fn law_value_without_ace_is_sum_of_ranks(cards: Seq<Card>)
    requires
        holds_no_ace(cards),
    ensures
        total_points(cards) == hard_total(cards),
        !holds_soft_ace(cards),
        hardened(cards) == cards,
    decreases cards.len(),
{
    if cards.len() > 0 {
        let rest = cards.drop_last();
        assert forall|i: int| 0 <= i < rest.len() implies (#[trigger] rest[i]).rank
            != Rank::Ace by {
            assert(cards[i].rank != Rank::Ace);
        }
        law_value_without_ace_is_sum_of_ranks(rest);
        assert(cards[cards.len() - 1].rank != Rank::Ace);
    }
    assert(hardened(cards) =~= cards);
}

/// A hand that holds an ace counted as 11 says that it holds a soft ace.
pub proof fn law_soft_ace_is_reported(cards: Seq<Card>, i: int)
    requires
        0 <= i < cards.len(),
        cards[i].rank == Rank::Ace,
        cards[i].soft,
    ensures
        holds_soft_ace(cards),
        soft_ace_count(cards) >= 1,
{
    lemma_hardened(cards);
}

/// A card that takes a hand over 21 makes every ace of the hand count 1, so
/// that the hand is within 21 where its aces can bring it there: with one
/// ace counted as 11 the total comes down by exactly 10. A card that leaves
/// the hand within 21 leaves its aces as they are.
pub proof fn law_hit_deflates_when_over(hand: HandView, card: Card)
    ensures
        ({
            let cards = hand.cards.push(card);
            let after = hand.hit(card);
            &&& total_points(cards) <= 21 ==> after.cards == cards
            &&& total_points(cards) > 21 ==> after.total() == hard_total(cards)
                && !holds_soft_ace(after.cards)
            &&& total_points(cards) > 21 && soft_ace_count(cards) == 1 ==> after.total()
                == total_points(cards) - 10
            &&& after.total() <= 21 <==> total_points(cards) <= 21 || hard_total(cards) <= 21
            &&& after.total() <= total_points(cards)
        }),
{
    let cards = hand.cards.push(card);
    lemma_hardened(cards);
    lemma_totals(cards, 0);
}

/// Making a hard hand hard changes nothing, so making a hand hard twice is
/// making it hard once.
pub proof fn law_deflate_is_idempotent(cards: Seq<Card>)
    ensures
        hardened(hardened(cards)) == hardened(cards),
        !holds_soft_ace(cards) ==> hardened(cards) == cards,
{
    assert(hardened(hardened(cards)) =~= hardened(cards));
    if !holds_soft_ace(cards) {
        assert forall|i: int| 0 <= i < cards.len() implies hardened(cards)[i] == cards[i] by {
            assert(!(cards[i].rank == Rank::Ace && cards[i].soft));
        }
        assert(hardened(cards) =~= cards);
    }
}

impl Hand {
    /// The hand's value.
    pub open spec fn total(&self) -> int {
        total_points(self.cards@)
    }

    /// An empty hand with the given stake.
    pub fn new(init_bet: u32) -> (hand: Hand)
        ensures
            hand@ == (HandView {
                cards: Seq::empty(),
                state: HandState::Init,
                init_bet,
                doubled: false,
                natural: false,
                split_child: false,
            }),
    {
        Hand {
            cards: Vec::new(),
            state: HandState::Init,
            init_bet,
            doubled: false,
            natural: false,
            split_child: false,
        }
    }

    /// A hand in play that holds the given cards.
    pub fn from_cards(
        cards: Vec<Card>,
        init_bet: u32,
        doubled: bool,
        natural: bool,
        split_child: bool,
    ) -> (hand: Hand)
        ensures
            hand@ == (HandView {
                cards: cards@,
                state: HandState::Playing,
                init_bet,
                doubled,
                natural,
                split_child,
            }),
    {
        Hand { cards, state: HandState::Playing, init_bet, doubled, natural, split_child }
    }

    /// Whether the first two cards are of one rank.
    pub fn contains_pair(&self) -> (pair: bool)
        requires
            self.cards@.len() >= 2,
        ensures
            pair == (self.cards@[0].rank == self.cards@[1].rank),
    {
        self.cards[0].rank == self.cards[1].rank
    }

    /// Whether the first two cards are both of the rank of `target_card`.
    pub fn contains_pair_of(&self, target_card: Card) -> (pair: bool)
        requires
            self.cards@.len() >= 2,
        ensures
            pair == (self.cards@[0].rank == self.cards@[1].rank && self.cards@[0].rank
                == target_card.rank),
    {
        if self.contains_pair() {
            self.cards[0].rank == target_card.rank
        } else {
            false
        }
    }

    /// Whether the hand holds an ace that counts 11.
    pub fn contains_soft_ace(&self) -> (soft: bool)
        ensures
            soft == holds_soft_ace(self.cards@),
    {
        let mut i: usize = 0;
        while i < self.cards.len()
            invariant
                i <= self.cards@.len(),
                !holds_soft_ace(self.cards@.take(i as int)),
            decreases self.cards@.len() - i,
        {
            let card = self.cards[i];
            if card.rank == Rank::Ace && card.is_inflated() {
                assert(self.cards@[i as int].rank == Rank::Ace);
                return true;
            }
            i += 1;
            assert forall|k: int| 0 <= k < i implies !((#[trigger] self.cards@.take(
                i as int,
            )[k]).rank == Rank::Ace && self.cards@.take(i as int)[k].soft) by {
                if k < i - 1 {
                    assert(self.cards@.take(i - 1)[k] == self.cards@[k]);
                }
            }
        }
        assert(self.cards@.take(i as int) =~= self.cards@);
        false
    }

    /// Makes every ace that counts 11 count 1.
    pub fn deflate_ace(&mut self)
        ensures
            final(self)@ == (HandView { cards: hardened(old(self).cards@), ..old(self)@ }),
    {
        let mut i: usize = 0;
        while i < self.cards.len()
            invariant
                i <= self.cards@.len(),
                self.cards@.len() == old(self).cards@.len(),
                forall|k: int| 0 <= k < i ==> self.cards@[k] == old(self).cards@[k].hardened(),
                forall|k: int| i <= k < self.cards@.len() ==> self.cards@[k] == old(self).cards@[k],
                self.state == old(self).state,
                self.init_bet == old(self).init_bet,
                self.doubled == old(self).doubled,
                self.natural == old(self).natural,
                self.split_child == old(self).split_child,
            decreases self.cards@.len() - i,
        {
            let mut card = self.cards[i];
            if card.rank == Rank::Ace && card.is_inflated() {
                card.deflate();
                self.cards.set(i, card);
            }
            i += 1;
        }
        assert(self.cards@ =~= hardened(old(self).cards@));
    }

    /// The sum of the cards' points.
    pub fn value(&self) -> (total: u8)
        requires
            self.total() <= MAX_TOTAL,
        ensures
            total == self.total(),
    {
        let mut total: u8 = 0;
        let mut i: usize = 0;
        while i < self.cards.len()
            invariant
                i <= self.cards@.len(),
                total == total_points(self.cards@.take(i as int)),
                total_points(self.cards@) <= MAX_TOTAL,
            decreases self.cards@.len() - i,
        {
            proof {
                lemma_totals(self.cards@, i + 1);
                assert(self.cards@.take(i + 1).drop_last() =~= self.cards@.take(i as int));
            }
            total = total + self.cards[i].value();
            i += 1;
        }
        assert(self.cards@.take(i as int) =~= self.cards@);
        total
    }

    /// The hand's cards in short, one after another.
    pub fn to_string(&self) -> (text: String)
        ensures
            text@ == cards_text(self.cards@),
    {
        let mut text = String::new();
        let mut i: usize = 0;
        while i < self.cards.len()
            invariant
                i <= self.cards@.len(),
                text@ == cards_text(self.cards@.take(i as int)),
            decreases self.cards@.len() - i,
        {
            proof {
                assert(self.cards@.take(i + 1).drop_last() =~= self.cards@.take(i as int));
            }
            let card = self.cards[i].to_string();
            text.append(card.as_str());
            i += 1;
        }
        assert(self.cards@.take(i as int) =~= self.cards@);
        text
    }

    /// Whether the hand's total is small enough for its value to be taken.
    pub fn is_sound(&self) -> (sound: bool)
        ensures
            sound == self@.sound(),
    {
        let mut total: u16 = 0;
        let mut i: usize = 0;
        while i < self.cards.len()
            invariant
                i <= self.cards@.len(),
                total == total_points(self.cards@.take(i as int)),
                total <= MAX_TOTAL,
            decreases self.cards@.len() - i,
        {
            proof {
                lemma_totals(self.cards@, i + 1);
                assert(self.cards@.take(i + 1).drop_last() =~= self.cards@.take(i as int));
            }
            total = total + self.cards[i].value() as u16;
            if total > MAX_TOTAL as u16 {
                return false;
            }
            i += 1;
        }
        assert(self.cards@.take(i as int) =~= self.cards@);
        true
    }

    /// Puts the hand in the given state.
    pub fn set_state(&mut self, new_state: HandState)
        ensures
            final(self)@ == (HandView { state: new_state, ..old(self)@ }),
    {
        self.state = new_state;
    }

    /// Whether the hand was given up.
    pub fn is_surrendered(&self) -> (surrendered: bool)
        ensures
            surrendered == self@.is_surrendered(),
    {
        self.state == HandState::EarlySurrender || self.state == HandState::LateSurrender
    }

    /// Whether no more action is taken on the hand: it is finished or was
    /// given up.
    pub fn is_finished(&self) -> (finished: bool)
        ensures
            finished == self@.is_finished(),
    {
        self.state == HandState::Finished || self.is_surrendered()
    }
}

impl Default for Hand {
    /// An empty hand with a stake of 10.
    fn default() -> (hand: Hand)
        ensures
            hand@ == (HandView {
                cards: Seq::empty(),
                state: HandState::Init,
                init_bet: 10,
                doubled: false,
                natural: false,
                split_child: false,
            }),
    {
        Hand::new(10)
    }
}

impl Clone for Hand {
    fn clone(&self) -> (hand: Self)
        ensures
            hand@ == self@,
    {
        let cards = self.cards.clone();
        assert(cards@ =~= self.cards@);
        Hand {
            cards,
            state: self.state,
            init_bet: self.init_bet,
            doubled: self.doubled,
            natural: self.natural,
            split_child: self.split_child,
        }
    }
}

} // verus!
