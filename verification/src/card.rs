//! Playing cards of a standard fifty-two card deck, and sets of them.
//!
//! A card is its position in a fresh deck: spades, hearts, diamonds, clubs,
//! each from the ace down to the deuce. A `Bard` is a set of cards as a
//! sixty-four bit mask, bit `i` standing for card `i`.
use vstd::prelude::*;
use vstd::string::*;

use cardpack::prelude::{BasicCard, BasicPile, Pip, PipType};

verus! {

/// A card of a standard deck, by its position in a fresh deck.
#[derive(Clone, Copy, Debug, PartialEq, Eq, Structural, Hash)]
pub struct Card(pub u8);

/// The number of cards in a standard deck.
pub const DECK_SIZE: usize = 52;

/// The rank character of rank position `r`, ace first.
pub open spec fn rank_char(r: nat) -> char {
    if r == 0 {
        'A'
    } else if r == 1 {
        'K'
    } else if r == 2 {
        'Q'
    } else if r == 3 {
        'J'
    } else if r == 4 {
        'T'
    } else if r == 5 {
        '9'
    } else if r == 6 {
        '8'
    } else if r == 7 {
        '7'
    } else if r == 8 {
        '6'
    } else if r == 9 {
        '5'
    } else if r == 10 {
        '4'
    } else if r == 11 {
        '3'
    } else {
        '2'
    }
}

/// The suit symbol of suit position `s`: spades, hearts, diamonds, clubs.
pub open spec fn suit_char(s: nat) -> char {
    if s == 0 {
        '\u{2660}'
    } else if s == 1 {
        '\u{2665}'
    } else if s == 2 {
        '\u{2666}'
    } else {
        '\u{2663}'
    }
}

/// The text of a card: its rank, then its suit symbol.
pub open spec fn card_text(c: Card) -> Seq<char> {
    seq![rank_char(c.0 as nat % 13), suit_char(c.0 as nat / 13)]
}

/// The text of a run of cards, separated by single spaces.
pub open spec fn cards_text(s: Seq<Card>) -> Seq<char>
    decreases s.len(),
{
    if s.len() == 0 {
        Seq::empty()
    } else if s.len() == 1 {
        card_text(s[0])
    } else {
        cards_text(s.drop_last()) + seq![' '] + card_text(s.last())
    }
}

impl Card {
    /// The fifty-two cards in the order of a fresh deck.
    pub fn fresh_deck() -> (d: Vec<Card>)
        ensures
            d@.len() == DECK_SIZE,
            forall|i: int| 0 <= i < DECK_SIZE ==> #[trigger] d@[i] == Card(i as u8),
            d@ == fresh_deck_spec(),
    {
        let mut d: Vec<Card> = Vec::new();
        let mut i: u8 = 0;
        while i < 52
            invariant
                i <= 52,
                d@.len() == i,
                forall|j: int| 0 <= j < i ==> #[trigger] d@[j] == Card(j as u8),
            decreases 52 - i,
        {
            d.push(Card(i));
            i = i + 1;
        }
        d
    }

    /// Appends the text of the card.
    pub fn push_text(&self, s: &mut String)
        ensures
            final(s)@ == old(s)@ + card_text(*self),
    {
        let r = self.0 % 13;
        let u = self.0 / 13;
        let rank: &str = if r == 0 {
            "A"
        } else if r == 1 {
            "K"
        } else if r == 2 {
            "Q"
        } else if r == 3 {
            "J"
        } else if r == 4 {
            "T"
        } else if r == 5 {
            "9"
        } else if r == 6 {
            "8"
        } else if r == 7 {
            "7"
        } else if r == 8 {
            "6"
        } else if r == 9 {
            "5"
        } else if r == 10 {
            "4"
        } else if r == 11 {
            "3"
        } else {
            "2"
        };
        let suit: &str = if u == 0 {
            "\u{2660}"
        } else if u == 1 {
            "\u{2665}"
        } else if u == 2 {
            "\u{2666}"
        } else {
            "\u{2663}"
        };
        proof {
            reveal_strlit("A");
            reveal_strlit("K");
            reveal_strlit("Q");
            reveal_strlit("J");
            reveal_strlit("T");
            reveal_strlit("9");
            reveal_strlit("8");
            reveal_strlit("7");
            reveal_strlit("6");
            reveal_strlit("5");
            reveal_strlit("4");
            reveal_strlit("3");
            reveal_strlit("2");
            reveal_strlit("\u{2660}");
            reveal_strlit("\u{2665}");
            reveal_strlit("\u{2666}");
            reveal_strlit("\u{2663}");
        }
        s.append(rank);
        s.append(suit);
        assert(final(s)@ =~= old(s)@ + card_text(*self));
    }

    pub fn to_string(&self) -> (s: String)
        ensures
            s@ == card_text(*self),
    {
        let mut s = String::new();
        self.push_text(&mut s);
        assert(s@ =~= card_text(*self));
        s
    }
}

/// Appends the text of a run of cards, separated by single spaces.
pub fn push_cards_text(s: &mut String, cards: &Vec<Card>)
    ensures
        final(s)@ == old(s)@ + cards_text(cards@),
{
    let ghost start = s@;
    let mut i: usize = 0;
    while i < cards.len()
        invariant
            i <= cards@.len(),
            s@ == start + cards_text(cards@.subrange(0, i as int)),
        decreases cards@.len() - i,
    {
        proof {
            assert(cards@.subrange(0, i + 1).drop_last() =~= cards@.subrange(0, i as int));
        }
        if i > 0 {
            proof {
                reveal_strlit(" ");
            }
            s.append(" ");
        }
        cards[i].push_text(s);
        i = i + 1;
        proof {
            assert(s@ =~= start + cards_text(cards@.subrange(0, i as int)));
        }
    }
    proof {
        assert(cards@.subrange(0, cards@.len() as int) =~= cards@);
    }
}

/// `BasicPile::shuffled` of the `cardpack` crate, applied to the cards
/// carried one for one in `BasicCard`s (the card's position as the rank
/// weight): the same cards in a random order.
#[verifier::external_body]
pub fn shuffled(cards: Vec<Card>) -> (r: Vec<Card>)
    ensures
        r@.to_multiset() == cards@.to_multiset(),
{
    let pile: BasicPile = cards.iter().map(
        |c| BasicCard::new(Pip::default(), Pip::new(PipType::Rank, c.0 as usize, ' ', ' ')),
    ).collect();
    pile.shuffled().v().iter().map(|b| Card(b.rank.weight as u8)).collect()
}

/// A set of cards as a mask: bit `i` is card `i`.
#[derive(Clone, Copy, Debug, PartialEq, Eq, Structural, Hash, Default)]
pub struct Bard(pub u64);

/// A fresh deck: every card once, in deck order.
pub open spec fn fresh_deck_spec() -> Seq<Card> {
    Seq::new(DECK_SIZE as nat, |i: int| Card(i as u8))
}

/// The mask of a run of cards: one bit per card, set at the card's
/// position (a position past the mask's width sets nothing).
pub open spec fn bard_of(s: Seq<Card>) -> Bard
    decreases s.len(),
{
    if s.len() == 0 {
        Bard(0)
    } else if s.last().0 < 64 {
        Bard(bard_of(s.drop_last()).0 | (1u64 << (s.last().0 as u64)))
    } else {
        bard_of(s.drop_last())
    }
}

/// The cards of the mask `b` below position `n`, in deck order.
pub open spec fn bard_cards_below(b: u64, n: nat) -> Seq<Card>
    decreases n,
{
    if n == 0 {
        Seq::empty()
    } else {
        let rest = bard_cards_below(b, (n - 1) as nat);
        if (b >> ((n - 1) as u64)) & 1u64 == 1u64 {
            rest.push(Card((n - 1) as u8))
        } else {
            rest
        }
    }
}

/// The cards of the mask `b`, in deck order.
pub open spec fn bard_cards(b: Bard) -> Seq<Card> {
    bard_cards_below(b.0, DECK_SIZE as nat)
}

proof fn lemma_bard_cards_below_valid(b: u64, n: nat)
    requires
        n <= 52,
    ensures
        forall|i: int| 0 <= i < bard_cards_below(b, n).len() ==> (#[trigger] bard_cards_below(b, n)[i]).0 < n,
    decreases n,
{
    if n > 0 {
        lemma_bard_cards_below_valid(b, (n - 1) as nat);
        let rest = bard_cards_below(b, (n - 1) as nat);
        assert(Card((n - 1) as u8).0 == n - 1);
        assert forall|i: int| 0 <= i < bard_cards_below(b, n).len() implies (
        #[trigger] bard_cards_below(b, n)[i]).0 < n by {
            if i < rest.len() {
                assert(bard_cards_below(b, n)[i] == rest[i]);
            }
        }
    }
}

impl Bard {
    /// The mask of the given cards.
    pub fn from_cards(cards: &Vec<Card>) -> (b: Bard)
        ensures
            b == bard_of(cards@),
    {
        let mut m: u64 = 0;
        let mut i: usize = 0;
        while i < cards.len()
            invariant
                i <= cards@.len(),
                m == bard_of(cards@.subrange(0, i as int)).0,
            decreases cards@.len() - i,
        {
            proof {
                assert(cards@.subrange(0, i + 1).drop_last() =~= cards@.subrange(0, i as int));
            }
            let c: u64 = cards[i].0 as u64;
            if c < 64 {
                m = m | (1u64 << c);
            }
            i = i + 1;
        }
        proof {
            assert(cards@.subrange(0, cards@.len() as int) =~= cards@);
        }
        Bard(m)
    }

    /// The cards of the mask, in deck order.
    pub fn cards(&self) -> (v: Vec<Card>)
        ensures
            v@ == bard_cards(*self),
    {
        let mut v: Vec<Card> = Vec::new();
        let mut n: u64 = 0;
        while n < 52
            invariant
                n <= 52,
                v@ == bard_cards_below(self.0, n as nat),
            decreases 52 - n,
        {
            if (self.0 >> n) & 1u64 == 1u64 {
                v.push(Card(n as u8));
            }
            n = n + 1;
        }
        v
    }

    /// Appends the text of the cards of the mask, in deck order.
    pub fn push_text(&self, s: &mut String)
        ensures
            final(s)@ == old(s)@ + cards_text(bard_cards(*self)),
    {
        let v = self.cards();
        proof {
            lemma_bard_cards_below_valid(self.0, 52);
        }
        push_cards_text(s, &v);
    }
}

/// A fixed number of card slots, filled in dealing order.
#[derive(Clone, Debug, PartialEq, Eq)]
pub struct BoxedCards {
    /// How many cards the box holds when full.
    pub slots: usize,
    /// The cards dealt so far, in dealing order.
    pub dealt: Vec<Card>,
}

impl BoxedCards {
    /// `n` blank slots.
    pub fn blanks(n: usize) -> (b: BoxedCards)
        ensures
            b.slots == n,
            b.dealt@.len() == 0,
    {
        BoxedCards { slots: n, dealt: Vec::new() }
    }

    /// The number of slots.
    pub fn len(&self) -> (n: usize)
        ensures
            n == self.slots,
    {
        self.slots
    }

    pub fn number_of_dealt_cards(&self) -> (n: usize)
        ensures
            n == self.dealt@.len(),
    {
        self.dealt.len()
    }

    /// Every slot holds a card.
    pub fn is_dealt(&self) -> (b: bool)
        ensures
            b == (self.dealt@.len() >= self.slots),
    {
        self.dealt.len() >= self.slots
    }

    pub fn has_cards(&self) -> (b: bool)
        ensures
            b == (self.dealt@.len() > 0),
    {
        self.dealt.len() > 0
    }

    /// Puts `card` in the next blank slot and says whether the box is now
    /// full. Refused with `NoBlankSlots` when it already is.
    pub fn deal(&mut self, card: Card) -> (r: Result<bool, crate::error::PKError>)
        ensures
            old(self).dealt@.len() >= old(self).slots ==> r == Err::<bool, crate::error::PKError>(
                crate::error::PKError::NoBlankSlots,
            ) && *final(self) == *old(self),
            old(self).dealt@.len() < old(self).slots ==> final(self).slots == old(self).slots
                && final(self).dealt@ == old(self).dealt@.push(card) && r == Ok::<
                bool,
                crate::error::PKError,
            >(final(self).dealt@.len() >= final(self).slots),
    {
        if self.dealt.len() >= self.slots {
            return Err(crate::error::PKError::NoBlankSlots);
        }
        self.dealt.push(card);
        Ok(self.dealt.len() >= self.slots)
    }

    /// A copy of the box: the same slots and the same cards.
    pub fn copied(&self) -> (b: BoxedCards)
        ensures
            b.slots == self.slots,
            b.dealt@ == self.dealt@,
    {
        let mut dealt: Vec<Card> = Vec::new();
        let mut i: usize = 0;
        while i < self.dealt.len()
            invariant
                i <= self.dealt@.len(),
                dealt@ == self.dealt@.subrange(0, i as int),
            decreases self.dealt@.len() - i,
        {
            dealt.push(self.dealt[i]);
            i = i + 1;
            proof {
                assert(dealt@ =~= self.dealt@.subrange(0, i as int));
            }
        }
        proof {
            assert(dealt@ =~= self.dealt@);
        }
        BoxedCards { slots: self.slots, dealt }
    }

    /// Takes the cards out, leaving the slots blank.
    pub fn take(&mut self) -> (v: Vec<Card>)
        ensures
            v == old(self).dealt,
            final(self).slots == old(self).slots,
            final(self).dealt@.len() == 0,
    {
        let mut v: Vec<Card> = Vec::new();
        std::mem::swap(&mut v, &mut self.dealt);
        v
    }
}

} // verus!
