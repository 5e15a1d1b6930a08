//! Cards, decks, shoes and hands.

pub use crate::hand::{Hand, HandState};
use crate::playing_strategy::DealerUpcardStrength;
use crate::random::{random_below, shuffle_cards};
use rand_chacha::ChaCha8Rng;
use vstd::prelude::*;
use vstd::string::StringExecFns;

verus! {

/// The suit of a card.
#[derive(Debug, Copy, Clone, PartialEq, Eq, Structural)]
pub enum Suit {
    Hearts,
    Diamonds,
    Clubs,
    Spades,
}

/// The suits in the order in which a sorted deck holds them.
pub open spec fn suit_order() -> Seq<Suit> {
    seq![Suit::Hearts, Suit::Diamonds, Suit::Clubs, Suit::Spades]
}

impl Suit {
    /// All four suits, in deck order.
    pub fn iterator() -> (suits: Vec<Suit>)
        ensures
            suits@ == suit_order(),
    {
        let mut suits: Vec<Suit> = Vec::new();
        suits.push(Suit::Hearts);
        suits.push(Suit::Diamonds);
        suits.push(Suit::Clubs);
        suits.push(Suit::Spades);
        assert(suits@ =~= suit_order());
        suits
    }

    /// The suit's English name.
    pub open spec fn name(self) -> Seq<char> {
        match self {
            Suit::Hearts => "Hearts"@,
            Suit::Diamonds => "Diamonds"@,
            Suit::Clubs => "Clubs"@,
            Suit::Spades => "Spades"@,
        }
    }

    /// The suit's English name as text.
    pub fn to_string(&self) -> (text: String)
        ensures
            text@ == self.name(),
    {
        match self {
            Suit::Hearts => "Hearts".to_owned(),
            Suit::Diamonds => "Diamonds".to_owned(),
            Suit::Clubs => "Clubs".to_owned(),
            Suit::Spades => "Spades".to_owned(),
        }
    }
}

/// The rank of a card. `Blank` is the cut-card sentinel of a shoe: it has no
/// value and is never dealt into a hand.
#[derive(Debug, Copy, Clone, PartialEq, Eq, Structural)]
pub enum Rank {
    Ace,
    Two,
    Three,
    Four,
    Five,
    Six,
    Seven,
    Eight,
    Nine,
    Ten,
    Jack,
    Queen,
    King,
    Blank,
}

/// The thirteen playing ranks in the order in which a sorted deck holds them.
pub open spec fn rank_order() -> Seq<Rank> {
    seq![
        Rank::Ace,
        Rank::Two,
        Rank::Three,
        Rank::Four,
        Rank::Five,
        Rank::Six,
        Rank::Seven,
        Rank::Eight,
        Rank::Nine,
        Rank::Ten,
        Rank::Jack,
        Rank::Queen,
        Rank::King,
    ]
}

impl Rank {
    /// Points that a card of this rank counts for. An ace counts 11 while it
    /// is soft and 1 once it is hard; the court cards count 10; the sentinel
    /// counts nothing.
    pub open spec fn points(&self, soft: bool) -> u8 {
        match *self {
            Rank::Ace => if soft { 11u8 } else { 1u8 },
            Rank::Two => 2u8,
            Rank::Three => 3u8,
            Rank::Four => 4u8,
            Rank::Five => 5u8,
            Rank::Six => 6u8,
            Rank::Seven => 7u8,
            Rank::Eight => 8u8,
            Rank::Nine => 9u8,
            Rank::Ten | Rank::Jack | Rank::Queen | Rank::King => 10u8,
            Rank::Blank => 0u8,
        }
    }

    /// Points that a card of this rank counts for, soft or hard.
    #[verifier::when_used_as_spec(points)]
    pub fn value(&self, soft: bool) -> (points: u8)
        ensures
            points == self.points(soft),
            points <= 11,
    {
        match *self {
            Rank::Ace => if soft { 11 } else { 1 },
            Rank::Two => 2,
            Rank::Three => 3,
            Rank::Four => 4,
            Rank::Five => 5,
            Rank::Six => 6,
            Rank::Seven => 7,
            Rank::Eight => 8,
            Rank::Nine => 9,
            Rank::Ten | Rank::Jack | Rank::Queen | Rank::King => 10,
            Rank::Blank => 0,
        }
    }

    /// The thirteen playing ranks, ace first, without the sentinel.
    pub fn iterator() -> (ranks: Vec<Rank>)
        ensures
            ranks@ == rank_order(),
    {
        let mut ranks: Vec<Rank> = Vec::new();
        ranks.push(Rank::Ace);
        ranks.push(Rank::Two);
        ranks.push(Rank::Three);
        ranks.push(Rank::Four);
        ranks.push(Rank::Five);
        ranks.push(Rank::Six);
        ranks.push(Rank::Seven);
        ranks.push(Rank::Eight);
        ranks.push(Rank::Nine);
        ranks.push(Rank::Ten);
        ranks.push(Rank::Jack);
        ranks.push(Rank::Queen);
        ranks.push(Rank::King);
        assert(ranks@ =~= rank_order());
        ranks
    }

    /// The rank's English name.
    pub open spec fn name(self) -> Seq<char> {
        match self {
            Rank::Ace => "Ace"@,
            Rank::Two => "Two"@,
            Rank::Three => "Three"@,
            Rank::Four => "Four"@,
            Rank::Five => "Five"@,
            Rank::Six => "Six"@,
            Rank::Seven => "Seven"@,
            Rank::Eight => "Eight"@,
            Rank::Nine => "Nine"@,
            Rank::Ten => "Ten"@,
            Rank::Jack => "Jack"@,
            Rank::Queen => "Queen"@,
            Rank::King => "King"@,
            Rank::Blank => "Blank"@,
        }
    }

    /// The rank's English name as text.
    pub fn to_string(&self) -> (text: String)
        ensures
            text@ == self.name(),
    {
        match self {
            Rank::Ace => "Ace".to_owned(),
            Rank::Two => "Two".to_owned(),
            Rank::Three => "Three".to_owned(),
            Rank::Four => "Four".to_owned(),
            Rank::Five => "Five".to_owned(),
            Rank::Six => "Six".to_owned(),
            Rank::Seven => "Seven".to_owned(),
            Rank::Eight => "Eight".to_owned(),
            Rank::Nine => "Nine".to_owned(),
            Rank::Ten => "Ten".to_owned(),
            Rank::Jack => "Jack".to_owned(),
            Rank::Queen => "Queen".to_owned(),
            Rank::King => "King".to_owned(),
            Rank::Blank => "Blank".to_owned(),
        }
    }
}

/// A playing card. `soft` matters for aces only: a soft ace counts 11, a hard
/// one counts 1. A card starts soft and is made hard at most once.
#[derive(Debug, Copy, Clone, PartialEq, Eq, Structural)]
pub struct Card {
    pub rank: Rank,
    pub suit: Suit,
    pub soft: bool,
}

/// The sentinel that marks the cut in a shoe.
pub open spec fn blank_card() -> Card {
    Card { rank: Rank::Blank, suit: Suit::Hearts, soft: true }
}

impl Card {
    /// Points the card counts for as it stands.
    pub open spec fn points(&self) -> u8 {
        self.rank.points(self.soft)
    }

    /// Points the card counts for with an ace taken as 1.
    pub open spec fn hard_points(&self) -> u8 {
        self.rank.points(false)
    }

    /// The card with an ace that counts 11 made to count 1; any other card
    /// as it is.
    pub open spec fn hardened(&self) -> Card {
        if self.rank == Rank::Ace && self.soft {
            Card { rank: self.rank, suit: self.suit, soft: false }
        } else {
            *self
        }
    }

    /// A soft card of the given rank, in hearts.
    pub fn from_rank(rank: Rank) -> (card: Card)
        ensures
            card == (Card { rank, suit: Suit::Hearts, soft: true }),
    {
        Card { rank, suit: Suit::Hearts, soft: true }
    }

    /// Whether the card is the sentinel.
    pub fn is_blank(&self) -> (blank: bool)
        ensures
            blank == (self.rank == Rank::Blank),
    {
        self.rank == Rank::Blank
    }

    /// Whether the card is soft.
    pub fn is_inflated(&self) -> (soft: bool)
        ensures
            soft == self.soft,
    {
        self.soft
    }

    /// Makes the card hard.
    pub fn deflate(&mut self)
        ensures
            *final(self) == (Card { rank: old(self).rank, suit: old(self).suit, soft: false }),
    {
        self.soft = false;
    }

    /// Makes the card soft.
    pub fn inflate(&mut self)
        ensures
            *final(self) == (Card { rank: old(self).rank, suit: old(self).suit, soft: true }),
    {
        self.soft = true;
    }

    /// Points the card counts for as it stands.
    #[verifier::when_used_as_spec(points)]
    pub fn value(&self) -> (points: u8)
        ensures
            points == self.points(),
            points <= 11,
    {
        self.rank.value(self.soft)
    }

    /// The card's full name, such as "Ace of Clubs".
    pub open spec fn full_name(&self) -> Seq<char> {
        self.rank.name() + " of "@ + self.suit.name()
    }

    /// The card's full name as text.
    pub fn name(&self) -> (text: String)
        ensures
            text@ == self.full_name(),
    {
        let mut text = self.rank.to_string();
        text.append(" of ");
        let suit = self.suit.to_string();
        text.append(suit.as_str());
        text
    }

    /// The card in short: its points and the sign of its suit in square
    /// brackets.
    pub open spec fn short_name(&self) -> Seq<char> {
        "["@ + points_text(self.points()) + " "@ + suit_sign(self.suit) + "]"@
    }

    /// The card in short as text.
    pub fn to_string(&self) -> (text: String)
        ensures
            text@ == self.short_name(),
    {
        let mut text = "[".to_owned();
        let points: u8 = self.value();
        text.append(
            if points == 0 {
                "0"
            } else if points == 1 {
                "1"
            } else if points == 2 {
                "2"
            } else if points == 3 {
                "3"
            } else if points == 4 {
                "4"
            } else if points == 5 {
                "5"
            } else if points == 6 {
                "6"
            } else if points == 7 {
                "7"
            } else if points == 8 {
                "8"
            } else if points == 9 {
                "9"
            } else if points == 10 {
                "10"
            } else {
                "11"
            },
        );
        text.append(" ");
        text.append(
            match self.suit {
                Suit::Hearts => "\u{2665}",
                Suit::Diamonds => "\u{2666}",
                Suit::Clubs => "\u{2663}",
                Suit::Spades => "\u{2660}",
            },
        );
        text.append("]");
        text
    }

    /// How strong the card is as a dealer's upcard.
    pub open spec fn strength(&self) -> DealerUpcardStrength {
        let points = self.points();
        if 2 <= points <= 3 {
            DealerUpcardStrength::Fair
        } else if 4 <= points <= 6 {
            DealerUpcardStrength::Poor
        } else {
            DealerUpcardStrength::Good
        }
    }

    /// How strong the card is as a dealer's upcard.
    #[verifier::when_used_as_spec(strength)]
    pub fn get_dealer_str(&self) -> (strength: DealerUpcardStrength)
        ensures
            strength == self.strength(),
    {
        let points: u8 = self.value();
        if 2 <= points && points <= 3 {
            DealerUpcardStrength::Fair
        } else if 4 <= points && points <= 6 {
            DealerUpcardStrength::Poor
        } else {
            DealerUpcardStrength::Good
        }
    }
}

/// The points of a card in decimal digits.
pub open spec fn points_text(points: u8) -> Seq<char> {
    if points == 0 {
        "0"@
    } else if points == 1 {
        "1"@
    } else if points == 2 {
        "2"@
    } else if points == 3 {
        "3"@
    } else if points == 4 {
        "4"@
    } else if points == 5 {
        "5"@
    } else if points == 6 {
        "6"@
    } else if points == 7 {
        "7"@
    } else if points == 8 {
        "8"@
    } else if points == 9 {
        "9"@
    } else if points == 10 {
        "10"@
    } else {
        "11"@
    }
}

/// The sign of a suit.
pub open spec fn suit_sign(suit: Suit) -> Seq<char> {
    match suit {
        Suit::Hearts => "\u{2665}"@,
        Suit::Diamonds => "\u{2666}"@,
        Suit::Clubs => "\u{2663}"@,
        Suit::Spades => "\u{2660}"@,
    }
}

/// The card at position `i` of a sorted 52-card deck: suit by suit, each from
/// ace to king, all soft.
pub open spec fn standard_card(i: int) -> Card {
    Card { rank: rank_order()[i % 13], suit: suit_order()[i / 13], soft: true }
}

/// A sorted 52-card deck.
pub open spec fn standard_deck() -> Seq<Card> {
    Seq::new(52, |i: int| standard_card(i))
}

/// `decks` sorted decks laid one after another.
pub open spec fn stacked_decks(decks: nat) -> Seq<Card> {
    Seq::new(52 * decks, |i: int| standard_card(i % 52))
}

/// The number of cards in a shoe before any draw.
pub open spec fn shoe_size(deck_count: u8, contains_blank: bool) -> nat {
    (52 * deck_count + if contains_blank { 1int } else { 0int }) as nat
}

/// Lowest offset from the bottom of the shoe at which the sentinel goes.
pub const BLANK_OFFSET_MIN: usize = 59;

/// The sentinel goes below this offset from the bottom of the shoe.
pub const BLANK_OFFSET_END: usize = 70;

/// Whether `shoe` is what a rebuild yields: the cards of `deck_count` decks
/// in some order, and, where the shoe holds the sentinel, the sentinel put in
/// between at an offset from the bottom in `[59, 70)`.
pub open spec fn is_fresh_shoe(shoe: Seq<Card>, deck_count: u8, contains_blank: bool) -> bool {
    if contains_blank {
        exists|offset: int|
            #![trigger shoe.remove(offset)]
            {
                &&& BLANK_OFFSET_MIN <= offset < BLANK_OFFSET_END
                &&& offset < shoe.len()
                &&& shoe[offset] == blank_card()
                &&& shoe.remove(offset).to_multiset() == stacked_decks(
                    deck_count as nat,
                ).to_multiset()
            }
    } else {
        shoe.to_multiset() == stacked_decks(deck_count as nat).to_multiset()
    }
}

/// Whether none of the cards is the sentinel.
pub open spec fn holds_no_blank(cards: Seq<Card>) -> bool {
    forall|i: int| 0 <= i < cards.len() ==> (#[trigger] cards[i]).rank != Rank::Blank
}

/// Whether every sentinel in the shoe lies on top of a playing card, so that
/// the draw after a sentinel finds one.
pub open spec fn blank_is_covered(shoe: Seq<Card>) -> bool {
    forall|i: int| 0 <= i < shoe.len() ==> #[trigger] covered_at(shoe, i)
}

/// Whether the card at `i`, if it is a sentinel, lies on top of a playing
/// card.
pub open spec fn covered_at(shoe: Seq<Card>, i: int) -> bool {
    shoe[i].rank == Rank::Blank ==> i > 0 && shoe[i - 1].rank != Rank::Blank
}

/// A pile of cards. The last card is the top one.
#[derive(Debug)]
pub struct Deck {
    pub cards: Vec<Card>,
}

impl Deck {
    /// A sorted 52-card deck.
    pub fn standard() -> (deck: Deck)
        ensures
            deck.cards@ == standard_deck(),
    {
        let suits = Suit::iterator();
        let ranks = Rank::iterator();
        let mut cards: Vec<Card> = Vec::with_capacity(52);
        let mut s: usize = 0;
        while s < 4
            invariant
                s <= 4,
                suits@ == suit_order(),
                ranks@ == rank_order(),
                cards@ == Seq::new((13 * s) as nat, |i: int| standard_card(i)),
            decreases 4 - s,
        {
            let mut r: usize = 0;
            while r < 13
                invariant
                    s < 4,
                    r <= 13,
                    suits@ == suit_order(),
                    ranks@ == rank_order(),
                    cards@ == Seq::new((13 * s + r) as nat, |i: int| standard_card(i)),
                decreases 13 - r,
            {
                cards.push(Card { rank: ranks[r], suit: suits[s], soft: true });
                r += 1;
                assert(cards@ =~= Seq::new((13 * s + r) as nat, |i: int| standard_card(i)));
            }
            s += 1;
        }
        assert(cards@ =~= standard_deck());
        Deck { cards }
    }

    /// Puts the cards into a random order.
    pub fn shuffle_rng(&mut self, rng: &mut ChaCha8Rng)
        ensures
            final(self).cards@.to_multiset() == old(self).cards@.to_multiset(),
            final(self).cards@.len() == old(self).cards@.len(),
            holds_no_blank(old(self).cards@) ==> holds_no_blank(final(self).cards@),
    {
        shuffle_cards(&mut self.cards, rng);
        proof {
            lemma_same_cards_same_blanks(old(self).cards@, self.cards@);
        }
    }

    /// Takes the top card, if there is one.
    pub fn draw(&mut self) -> (card: Option<Card>)
        ensures
            old(self).cards@.len() == 0 ==> card.is_none()
                && final(self).cards@ == old(self).cards@,
            old(self).cards@.len() > 0 ==> card == Some(old(self).cards@.last())
                && final(self).cards@ == old(self).cards@.drop_last(),
    {
        self.cards.pop()
    }
}

impl Clone for Deck {
    fn clone(&self) -> (deck: Self)
        ensures
            deck.cards@ == self.cards@,
    {
        let cards = self.cards.clone();
        assert(cards@ =~= self.cards@);
        Deck { cards }
    }
}

/// A shoe: the cards of one or more decks, drawn from the top. `deck_count`
/// and `contains_blank` say how the shoe is rebuilt once it is empty.
#[derive(Debug)]
pub struct MultiDeck {
    pub decks: Deck,
    pub deck_count: u8,
    pub contains_blank: bool,
}

impl MultiDeck {
    /// The cards in the shoe, bottom first.
    pub open spec fn shoe(&self) -> Seq<Card> {
        self.decks.cards@
    }

    /// What a round engine needs of its shoe: at least one deck; where the
    /// sentinel is used, enough cards below the highest offset it can take;
    /// no more cards than a rebuilt shoe holds; and a playing card under
    /// every sentinel.
    pub open spec fn wf(&self) -> bool {
        &&& self.deck_count >= 1
        &&& self.contains_blank ==> self.deck_count >= 2
        &&& self.shoe().len() <= shoe_size(self.deck_count, self.contains_blank)
        &&& blank_is_covered(self.shoe())
    }

    /// `size` sorted decks, one after another, without the sentinel.
    pub fn new(size: u8, contains_blank: bool) -> (shoe: Self)
        ensures
            shoe.shoe() == stacked_decks(size as nat),
            shoe.shoe().len() == 52 * size,
            holds_no_blank(shoe.shoe()),
            shoe.deck_count == size,
            shoe.contains_blank == contains_blank,
    {
        let deck = Deck::standard();
        let mut cards: Vec<Card> = Vec::new();
        let mut d: u8 = 0;
        while d < size
            invariant
                d <= size,
                deck.cards@ == standard_deck(),
                cards@ == stacked_decks(d as nat),
            decreases size - d,
        {
            let mut i: usize = 0;
            while i < 52
                invariant
                    d < size,
                    i <= 52,
                    deck.cards@ == standard_deck(),
                    cards@ == Seq::new((52 * d + i) as nat, |k: int| standard_card(k % 52)),
                decreases 52 - i,
            {
                cards.push(deck.cards[i]);
                i += 1;
                assert(cards@ =~= Seq::new(
                    (52 * d + i) as nat,
                    |k: int| standard_card(k % 52),
                ));
            }
            d += 1;
            assert(cards@ =~= stacked_decks(d as nat));
        }
        proof {
            assert forall|i: int| 0 <= i < cards@.len() implies (#[trigger] cards@[i]).rank
                != Rank::Blank by {
                lemma_stacked_decks_hold_no_blank(size as nat, i);
            }
        }
        MultiDeck { decks: Deck { cards }, deck_count: size, contains_blank }
    }

    /// Puts the sentinel into the shoe at a random offset from the bottom in
    /// `[59, 70)`. The shoe must reach up to the highest of these offsets.
    pub fn insert_blank(&mut self, rng: &mut ChaCha8Rng)
        requires
            old(self).shoe().len() >= BLANK_OFFSET_END - 1,
        ensures
            exists|offset: int|
                #![trigger old(self).shoe().insert(offset, blank_card())]
                BLANK_OFFSET_MIN <= offset < BLANK_OFFSET_END && final(self).shoe() == old(
                    self
                ).shoe().insert(offset, blank_card()),
            final(self).shoe().len() == old(self).shoe().len() + 1,
            final(self).deck_count == old(self).deck_count,
            final(self).contains_blank == old(self).contains_blank,
    {
        let blank = Card { rank: Rank::Blank, suit: Suit::Hearts, soft: true };
        let offset: usize = random_below(rng, BLANK_OFFSET_MIN, BLANK_OFFSET_END);
        self.decks.cards.insert(offset, blank);
        proof {
            old(self).shoe().insert_ensures(offset as int, blank_card());
        }
    }

    /// Takes the top card, if there is one.
    pub fn draw(&mut self) -> (card: Option<Card>)
        ensures
            old(self).shoe().len() == 0 ==> card.is_none()
                && final(self).shoe() == old(self).shoe(),
            old(self).shoe().len() > 0 ==> card == Some(old(self).shoe().last())
                && final(self).shoe() == old(self).shoe().drop_last(),
            final(self).deck_count == old(self).deck_count,
            final(self).contains_blank == old(self).contains_blank,
    {
        self.decks.draw()
    }

    /// Puts the cards into a random order. A shoe that is shuffled with the
    /// sentinel in it may not be well formed afterwards.
    pub fn shuffle(&mut self, rng: &mut ChaCha8Rng)
        ensures
            final(self).shoe().to_multiset() == old(self).shoe().to_multiset(),
            final(self).shoe().len() == old(self).shoe().len(),
            holds_no_blank(old(self).shoe()) ==> holds_no_blank(final(self).shoe()),
            final(self).deck_count == old(self).deck_count,
            final(self).contains_blank == old(self).contains_blank,
    {
        self.decks.shuffle_rng(rng);
    }
}

impl Clone for MultiDeck {
    fn clone(&self) -> (shoe: Self)
        ensures
            shoe.shoe() == self.shoe(),
            shoe.deck_count == self.deck_count,
            shoe.contains_blank == self.contains_blank,
    {
        MultiDeck {
            decks: self.decks.clone(),
            deck_count: self.deck_count,
            contains_blank: self.contains_blank,
        }
    }
}

/// No card of stacked decks is the sentinel.
pub proof fn lemma_stacked_decks_hold_no_blank(decks: nat, i: int)
    requires
        0 <= i < 52 * decks,
    ensures
        stacked_decks(decks)[i].rank != Rank::Blank,
{
    let k = (i % 52) % 13;
    assert(stacked_decks(decks)[i].rank == rank_order()[k]);
    assert(0 <= k < 13);
    assert(rank_order()[k] != Rank::Blank);
}

/// A rebuilt shoe holds 52 cards for each of its decks, and one more where
/// it holds the sentinel.
pub proof fn law_fresh_shoe_size(shoe: Seq<Card>, deck_count: u8, contains_blank: bool)
    requires
        is_fresh_shoe(shoe, deck_count, contains_blank),
    ensures
        shoe.len() == shoe_size(deck_count, contains_blank),
        shoe.len() == 52 * deck_count + if contains_blank {
            1int
        } else {
            0int
        },
{
    let decks = stacked_decks(deck_count as nat);
    if contains_blank {
        let offset = choose|offset: int|
            #![trigger shoe.remove(offset)]
            {
                &&& BLANK_OFFSET_MIN <= offset < BLANK_OFFSET_END
                &&& offset < shoe.len()
                &&& shoe[offset] == blank_card()
                &&& shoe.remove(offset).to_multiset() == decks.to_multiset()
            };
        lemma_same_cards_hold_no_blank(shoe.remove(offset), deck_count as nat);
    } else {
        lemma_same_cards_hold_no_blank(shoe, deck_count as nat);
    }
}

/// A rebuilt shoe has a playing card on top and a playing card under the
/// sentinel.
pub proof fn lemma_fresh_shoe(shoe: Seq<Card>, deck_count: u8, contains_blank: bool)
    requires
        is_fresh_shoe(shoe, deck_count, contains_blank),
        deck_count >= 1,
        contains_blank ==> deck_count >= 2,
    ensures
        shoe.len() == shoe_size(deck_count, contains_blank),
        blank_is_covered(shoe),
        shoe.last().rank != Rank::Blank,
{
    let decks = stacked_decks(deck_count as nat);
    if contains_blank {
        let offset = choose|offset: int|
            #![trigger shoe.remove(offset)]
            {
                &&& BLANK_OFFSET_MIN <= offset < BLANK_OFFSET_END
                &&& offset < shoe.len()
                &&& shoe[offset] == blank_card()
                &&& shoe.remove(offset).to_multiset() == decks.to_multiset()
            };
        let rest = shoe.remove(offset);
        lemma_same_cards_hold_no_blank(rest, deck_count as nat);
        assert forall|i: int| 0 <= i < shoe.len() implies #[trigger] covered_at(shoe, i) by {
            if i < offset {
                assert(shoe[i] == rest[i]);
            } else if i > offset {
                assert(shoe[i] == rest[i - 1]);
            } else {
                assert(shoe[i - 1] == rest[i - 1]);
            }
        }
        assert(shoe.last() == rest[rest.len() - 1]);
    } else {
        lemma_same_cards_hold_no_blank(shoe, deck_count as nat);
        assert forall|i: int| 0 <= i < shoe.len() implies #[trigger] covered_at(shoe, i) by {}
    }
}

/// A row that holds the same cards as a row without the sentinel holds no
/// sentinel.
pub proof fn lemma_same_cards_same_blanks(first: Seq<Card>, second: Seq<Card>)
    requires
        first.to_multiset() == second.to_multiset(),
    ensures
        holds_no_blank(first) ==> holds_no_blank(second),
{
    first.to_multiset_ensures();
    second.to_multiset_ensures();
    if holds_no_blank(first) {
        assert forall|i: int| 0 <= i < second.len() implies (#[trigger] second[i]).rank
            != Rank::Blank by {
            assert(second.contains(second[i]));
            assert(first.to_multiset().count(second[i]) > 0);
            assert(first.contains(second[i]));
            let j = choose|j: int| 0 <= j < first.len() && first[j] == second[i];
            assert(first[j].rank != Rank::Blank);
        }
    }
}

/// A row that holds the cards of stacked decks, in any order, is as long as
/// they are and holds no sentinel.
pub proof fn lemma_same_cards_hold_no_blank(cards: Seq<Card>, decks: nat)
    requires
        cards.to_multiset() == stacked_decks(decks).to_multiset(),
    ensures
        cards.len() == 52 * decks,
        forall|i: int| 0 <= i < cards.len() ==> (#[trigger] cards[i]).rank != Rank::Blank,
{
    let stacked = stacked_decks(decks);
    cards.to_multiset_ensures();
    stacked.to_multiset_ensures();
    assert forall|i: int| 0 <= i < cards.len() implies (#[trigger] cards[i]).rank
        != Rank::Blank by {
        assert(cards.contains(cards[i]));
        assert(stacked.to_multiset().count(cards[i]) > 0);
        assert(stacked.contains(cards[i]));
        let j = choose|j: int| 0 <= j < stacked.len() && stacked[j] == cards[i];
        lemma_stacked_decks_hold_no_blank(decks, j);
    }
}

} // verus!
