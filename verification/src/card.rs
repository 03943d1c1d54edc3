//! Card codec: a card is one byte.
//!
//! Bits 0-5 hold the card index in `[0, 51]`: suit = index / 13 with
//! Clubs(0), Diamonds(1), Spades(2), Hearts(3); rank = index % 13 + 1 with
//! 1 = Ace and 13 = King. Diamonds and Hearts are red. Bit 6 set means the
//! card lies face down; bit 7 is reserved. The byte `0xFF` stands for
//! "no card" (an empty foundation slot).
use vstd::prelude::*;
use vstd::string::StringExecFns;

verus! {

pub type Card = u8;

pub const NUM_CARDS_DECK: u8 = 52;
pub const NUM_CARDS_SUIT: u8 = 13;

pub const NO_CARD: u8 = 255;

/// The card index: the byte with the orientation bit and the reserved bit
/// stripped.
pub open spec fn idx_of(c: u8) -> u8 {
    c % 64
}

/// True when the orientation bit (bit 6) is clear, i.e. the card is face up.
pub open spec fn up_of(c: u8) -> bool {
    (c / 64) % 2 == 0
}

/// The byte with the orientation bit cleared (face up), other bits kept.
pub open spec fn upturn_of(c: u8) -> u8 {
    if up_of(c) {
        c
    } else {
        (c - 64) as u8
    }
}

/// The byte with the orientation bit set (face down), other bits kept.
pub open spec fn downturn_of(c: u8) -> u8 {
    if up_of(c) {
        (c + 64) as u8
    } else {
        c
    }
}

/// The byte carries a card (its index names one of the 52 cards).
pub open spec fn real_card(c: u8) -> bool {
    idx_of(c) < 52
}

/// Rank in `[1, 13]`; the "no card" byte has rank 0.
pub open spec fn rank_of(c: u8) -> u8 {
    if c == NO_CARD {
        0
    } else {
        (idx_of(c) % 13 + 1) as u8
    }
}

/// Suit in `[0, 3]` for a real card: Clubs, Diamonds, Spades, Hearts.
pub open spec fn suit_of(c: u8) -> u8 {
    idx_of(c) / 13
}

/// Diamonds and Hearts are red.
pub open spec fn red_of(c: u8) -> bool {
    suit_of(c) == 1 || suit_of(c) == 3
}

pub open spec fn king_of(c: u8) -> bool {
    idx_of(c) % 13 == 12
}

/// `top` may be laid on `bottom` in a tableau: one rank lower, other color.
pub open spec fn fits_on_spec(bottom: u8, top: u8) -> bool {
    rank_of(bottom) == rank_of(top) + 1 && red_of(bottom) != red_of(top)
}

pub trait IsCard: Sized {
    spec fn card_idx(&self) -> u8;

    spec fn card_up(&self) -> bool;

    fn index(&self) -> (r: u8)
        ensures
            r == self.card_idx(),
    ;

    fn is_face_up(&self) -> (r: bool)
        ensures
            r == self.card_up(),
    ;

    fn face_up(&self) -> (r: Self);

    fn face_down(&self) -> (r: Self);
}

impl IsCard for u8 {
    open spec fn card_idx(&self) -> u8 {
        idx_of(*self)
    }

    open spec fn card_up(&self) -> bool {
        up_of(*self)
    }

    fn index(&self) -> (r: u8)
        ensures
            r == idx_of(*self),
    {
        proof {
            assert(*self & 0b0011_1111u8 == *self % 64) by (bit_vector);
        }
        *self & 0b0011_1111
    }

    fn is_face_up(&self) -> (r: bool)
        ensures
            r == up_of(*self),
    {
        proof {
            assert((*self & 0b0100_0000u8 == 0) == ((*self / 64) % 2 == 0)) by (bit_vector);
        }
        (*self & 0b0100_0000) == 0
    }

    fn face_up(&self) -> (r: u8)
        ensures
            r == upturn_of(*self),
    {
        proof {
            let c = *self;
            assert(c & 0b1011_1111u8 == (if (c / 64) % 2 == 0 {
                c
            } else {
                (c - 64) as u8
            })) by (bit_vector);
        }
        *self & 0b1011_1111
    }

    fn face_down(&self) -> (r: u8)
        ensures
            r == downturn_of(*self),
    {
        proof {
            let c = *self;
            assert(c | 0b0100_0000u8 == (if (c / 64) % 2 == 0 {
                (c + 64) as u8
            } else {
                c
            })) by (bit_vector);
        }
        *self | 0b0100_0000
    }
}

/// Turning a card over never changes which card it is.
pub broadcast proof fn lemma_turn_keeps_idx(c: u8)
    ensures
        #[trigger] idx_of(upturn_of(c)) == idx_of(c),
        #[trigger] idx_of(downturn_of(c)) == idx_of(c),
        up_of(upturn_of(c)),
        !up_of(downturn_of(c)),
{
}

pub const CLUBS_ACE: Card = 0;

pub const CLUBS_KING: Card = 12;

pub const DIAMONDS_ACE: Card = 13;

pub const DIAMONDS_KING: Card = 25;

pub const SPADES_ACE: Card = 26;

pub const SPADES_KING: Card = 38;

pub const HEARTS_ACE: Card = 39;

pub const HEARTS_KING: Card = 51;

pub fn is_clubs(card: Card) -> (r: bool)
    ensures
        r == (suit_of(card) == 0),
{
    card.index() <= CLUBS_KING
}

pub fn is_diamonds(card: Card) -> (r: bool)
    ensures
        r == (suit_of(card) == 1),
{
    card.index() >= DIAMONDS_ACE && card.index() <= DIAMONDS_KING
}

pub fn is_hearts(card: Card) -> (r: bool)
    ensures
        r == (suit_of(card) == 3),
{
    card.index() >= HEARTS_ACE && card.index() <= HEARTS_KING
}

pub fn is_spades(card: Card) -> (r: bool)
    ensures
        r == (suit_of(card) == 2),
{
    card.index() >= SPADES_ACE && card.index() <= SPADES_KING
}

pub fn is_red(card: Card) -> (r: bool)
    ensures
        r == red_of(card),
{
    is_diamonds(card) || is_hearts(card)
}

pub fn is_yellow(card: Card) -> (r: bool)
    ensures
        r == !red_of(card),
{
    !is_red(card)
}

/// Rank of the card: Ace 1 up to King 13; 0 for the "no card" byte.
///
/// A byte whose index names no card (only 52 of the 64 indices do) is
/// rejected by the caller, as the computation has no meaning there.
pub fn card_rank(card: Card) -> (r: u8)
    requires
        real_card(card) || card == NO_CARD,
    ensures
        r == rank_of(card),
{
    if card == u8::MAX {
        0
    } else {
        let card_index = card.index();
        if card_index <= CLUBS_KING {
            card_index - CLUBS_ACE + 1
        } else if card_index <= DIAMONDS_KING {
            card_index - DIAMONDS_ACE + 1
        } else if card_index <= SPADES_KING {
            card_index - SPADES_ACE + 1
        } else {
            card_index - HEARTS_ACE + 1
        }
    }
}

/// `top` continues an ascending run over `bottom`: exactly one rank higher.
pub fn are_card_ranks_ascending(bottom: Card, top: Card) -> (r: bool)
    requires
        real_card(bottom) || bottom == NO_CARD,
        real_card(top) || top == NO_CARD,
    ensures
        r == (rank_of(top) != 0 && rank_of(bottom) == rank_of(top) - 1),
{
    let rank_top = card_rank(top);
    rank_top != 0 && card_rank(bottom) == rank_top - 1
}

/// `top` continues a descending run under `bottom`: exactly one rank lower.
pub fn are_card_ranks_descending(bottom: Card, top: Card) -> (r: bool)
    requires
        real_card(bottom) || bottom == NO_CARD,
        real_card(top) || top == NO_CARD,
    ensures
        r == (rank_of(bottom) == rank_of(top) + 1),
{
    card_rank(bottom) == card_rank(top) + 1
}

pub fn are_card_colors_different(card1: Card, card2: Card) -> (r: bool)
    ensures
        r == (red_of(card1) != red_of(card2)),
{
    is_red(card1) != is_red(card2)
}

pub fn are_card_suits_the_same(card1: Card, card2: Card) -> (r: bool)
    ensures
        r == (suit_of(card1) == suit_of(card2)),
{
    suit_rank(card1) == suit_rank(card2)
}

pub fn suit_rank(card: Card) -> (r: u8)
    ensures
        r == suit_of(card),
{
    card.index() / NUM_CARDS_SUIT
}

pub fn is_king(card: Card) -> (r: bool)
    ensures
        r == king_of(card),
{
    card.index() % 13 == 12
}

/// The sum of the four foundation ranks in a finished game.
pub fn ranking_of_kings() -> (r: usize)
    ensures
        r == 52,
{
    13 * 4
}

/// A card fits on a tableau card exactly when its rank is one lower and its
/// color differs.
pub fn can_be_placed_on_top_of(bottom: Card, top: Card) -> (r: bool)
    requires
        real_card(bottom) || bottom == NO_CARD,
        real_card(top) || top == NO_CARD,
    ensures
        r == fits_on_spec(bottom, top),
{
    are_card_ranks_descending(bottom, top) && are_card_colors_different(bottom, top)
}

/// No card can be laid on an Ace: a tableau run cannot continue below rank 1.
pub proof fn lemma_no_card_below_ace(bottom: u8, top: u8)
    requires
        real_card(bottom),
        real_card(top),
        rank_of(bottom) == 1,
    ensures
        !fits_on_spec(bottom, top),
{
}


/// The text of a card: a suit letter then a rank mark; a single space for
/// the "no card" byte.
pub open spec fn card_text_spec(c: u8) -> Seq<char> {
    if c == NO_CARD {
        seq![' ']
    } else {
        (if suit_of(c) == 0 {
            seq!['C']
        } else if suit_of(c) == 1 {
            seq!['D']
        } else if suit_of(c) == 2 {
            seq!['S']
        } else {
            seq!['H']
        }) + rank_text_spec(rank_of(c))
    }
}

/// The text of a rank: A, the digits, J, Q, K.
pub open spec fn rank_text_spec(r: u8) -> Seq<char> {
    if r == 1 {
        seq!['A']
    } else if r == 2 {
        seq!['2']
    } else if r == 3 {
        seq!['3']
    } else if r == 4 {
        seq!['4']
    } else if r == 5 {
        seq!['5']
    } else if r == 6 {
        seq!['6']
    } else if r == 7 {
        seq!['7']
    } else if r == 8 {
        seq!['8']
    } else if r == 9 {
        seq!['9']
    } else if r == 10 {
        seq!['1', '0']
    } else if r == 11 {
        seq!['J']
    } else if r == 12 {
        seq!['Q']
    } else {
        seq!['K']
    }
}

/// The plain text of a card, exactly as `card_text_spec` says. Terminal
/// coloring is presentation and stays outside the core.
pub fn pretty_string(card: Card) -> (r: String)
    requires
        real_card(card) || card == NO_CARD,
    ensures
        r@ == card_text_spec(card),
{
    if card == u8::MAX {
        let r = String::from_str(" ");
        proof {
            reveal_strlit(" ");
            assert(r@ =~= card_text_spec(card));
        }
        r
    } else {
        let sr = suit_rank(card);
        let cr = card_rank(card);
        let suit_string: &str = if sr == 0 {
            "C"
        } else if sr == 1 {
            "D"
        } else if sr == 2 {
            "S"
        } else {
            "H"
        };
        let rank_string: &str = if cr == 1 {
            "A"
        } else if cr == 2 {
            "2"
        } else if cr == 3 {
            "3"
        } else if cr == 4 {
            "4"
        } else if cr == 5 {
            "5"
        } else if cr == 6 {
            "6"
        } else if cr == 7 {
            "7"
        } else if cr == 8 {
            "8"
        } else if cr == 9 {
            "9"
        } else if cr == 10 {
            "10"
        } else if cr == 11 {
            "J"
        } else if cr == 12 {
            "Q"
        } else {
            "K"
        };
        let mut out = String::from_str(suit_string);
        out.append(rank_string);
        proof {
            reveal_strlit("C");
            reveal_strlit("D");
            reveal_strlit("S");
            reveal_strlit("H");
            reveal_strlit("A");
            reveal_strlit("2");
            reveal_strlit("3");
            reveal_strlit("4");
            reveal_strlit("5");
            reveal_strlit("6");
            reveal_strlit("7");
            reveal_strlit("8");
            reveal_strlit("9");
            reveal_strlit("10");
            reveal_strlit("J");
            reveal_strlit("Q");
            reveal_strlit("K");
            assert(out@ =~= card_text_spec(card));
        }
        out
    }
}

} // verus!
