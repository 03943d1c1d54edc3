//! The game state: seven tableaus, four foundations, stock and waste,
//! together with the derived data the move generator leans on (the first
//! unlocked index of each tableau and the bitmask of promoted cards).
//!
//! `GameView` is the mathematical model: every container as a sequence of
//! card bytes. `wf` is the state invariant: the 52 card indices are spread
//! over the containers exactly once, every tableau carries a well-formed
//! unlocked run, and the foundation bitmask agrees with the foundation tops.
use vstd::prelude::*;
use vstd::multiset::Multiset;
use crate::card::{
    Card, IsCard, NO_CARD, idx_of, up_of, upturn_of, downturn_of, real_card, rank_of, suit_of,
    red_of, king_of, fits_on_spec, card_rank, suit_rank, is_king, can_be_placed_on_top_of,
    ranking_of_kings,
};
use crate::stack::{CardStack, stack_seq, score_spec};
use crate::moves::{Move, CardPosition};

verus! {

/// The model of a game state: each container as a sequence of card bytes,
/// bottom first.
#[verifier::ext_equal]
pub ghost struct GameView {
    pub tableaus: Seq<Seq<u8>>,
    pub first_unlocked: Seq<u8>,
    pub foundations: Seq<u8>,
    pub foundation_stack: u64,
    pub stock: Seq<u8>,
    pub waste: Seq<u8>,
    pub prev_move: Option<Move>,
}

pub struct Game {
    pub tableaus: Vec<CardStack>,
    pub first_unlocked_idx: Vec<u8>,
    pub foundations: Vec<u8>,
    pub foundation_stack: u64,
    pub stock: CardStack,
    pub waste: CardStack,
    pub prev_move: Option<Move>,
}

impl View for Game {
    type V = GameView;

    open spec fn view(&self) -> GameView {
        GameView {
            tableaus: self.tableaus@.map_values(|s: CardStack| stack_seq(s)),
            first_unlocked: self.first_unlocked_idx@,
            foundations: self.foundations@,
            foundation_stack: self.foundation_stack,
            stock: self.stock@,
            waste: self.waste@,
            prev_move: self.prev_move,
        }
    }
}

/// The sentinel for "no unlocked card": the tableau is empty.
pub open spec fn sentinel() -> u8 {
    255u8
}

/// The suffix of `t` from `k` on is a proper run: every card but the top
/// one lies face up and carries the card above it by the tableau rule.
pub open spec fn run_ok(t: Seq<u8>, k: int) -> bool {
    forall|j: int| k <= j < t.len() - 1 ==> up_of(#[trigger] t[j]) && fits_on_spec(t[j], t[j + 1])
}

/// The unlocked-run invariant of one tableau with its cached first
/// unlocked index: the suffix from the cache on is a run whose top lies
/// face up, and everything below the cache lies face down.
pub open spec fn tableau_ok(t: Seq<u8>, fu: u8) -> bool {
    if t.len() == 0 {
        fu == sentinel()
    } else {
        &&& 0 <= fu < t.len()
        &&& run_ok(t, fu as int)
        &&& up_of(t.last())
        &&& forall|j: int| 0 <= j < fu ==> !up_of(#[trigger] t[j])
    }
}

/// Every byte in a tableau names a real card and keeps the reserved bit
/// clear.
pub open spec fn tableau_bytes_ok(t: Seq<u8>) -> bool {
    forall|j: int| 0 <= j < t.len() ==> real_card(#[trigger] t[j]) && t[j] < 128
}

/// Stock and waste bytes are bare card indices (face up, reserved bit
/// clear).
pub open spec fn pile_bytes_ok(s: Seq<u8>) -> bool {
    forall|j: int| 0 <= j < s.len() ==> #[trigger] s[j] < 52
}

/// The rank a foundation slot has reached: 0 while the slot is empty.
pub open spec fn found_rank(v: GameView, s: int) -> int {
    rank_of(v.foundations[s]) as int
}

/// Bit `j` of the 64-bit mask.
pub open spec fn bit64(m: u64, j: int) -> bool {
    (m >> (j as u64)) & 1u64 == 1u64
}

/// The foundation bitmask records exactly the cards the foundations have
/// swallowed: index `j` is promoted just when its rank has been reached on
/// the slot of its suit. The upper twelve bits stay clear.
pub open spec fn foundation_mask_ok(v: GameView) -> bool {
    forall|j: int|
        0 <= j < 64 ==> (#[trigger] bit64(v.foundation_stack, j) <==> (j < 52 && j % 13 + 1
            <= found_rank(v, j / 13)))
}

/// Each foundation slot is empty or holds a face-up card of its own suit.
pub open spec fn foundations_ok(v: GameView) -> bool {
    forall|s: int|
        0 <= s < 4 ==> (#[trigger] v.foundations[s] == NO_CARD || (v.foundations[s] < 52 && suit_of(
            v.foundations[s],
        ) == s))
}

/// The indices carried by the bytes of one container.
pub open spec fn idx_seq(s: Seq<u8>) -> Seq<u8> {
    s.map_values(|c: u8| idx_of(c))
}

/// The indices a foundation slot for suit `s` has swallowed once it shows
/// rank `r`: the first `r` cards of that suit.
pub open spec fn found_run(s: int, r: int) -> Seq<u8> {
    Seq::new(r as nat, |i: int| (13 * s + i) as u8)
}

/// Every card index held by the seven tableaus, with multiplicity.
pub open spec fn tabs_cards(t: Seq<Seq<u8>>) -> Multiset<u8> {
    idx_seq(t[0]).to_multiset().add(idx_seq(t[1]).to_multiset()).add(
        idx_seq(t[2]).to_multiset(),
    ).add(idx_seq(t[3]).to_multiset()).add(idx_seq(t[4]).to_multiset()).add(
        idx_seq(t[5]).to_multiset(),
    ).add(idx_seq(t[6]).to_multiset())
}

/// Every card index the foundations have swallowed, with multiplicity.
pub open spec fn found_cards(v: GameView) -> Multiset<u8> {
    found_run(0, found_rank(v, 0)).to_multiset().add(found_run(1, found_rank(v, 1)).to_multiset())
        .add(found_run(2, found_rank(v, 2)).to_multiset()).add(
        found_run(3, found_rank(v, 3)).to_multiset(),
    )
}

/// Every card index in the game, with multiplicity, over all containers.
pub open spec fn cards_of(v: GameView) -> Multiset<u8> {
    idx_seq(v.stock).to_multiset().add(idx_seq(v.waste).to_multiset()).add(
        tabs_cards(v.tableaus),
    ).add(found_cards(v))
}

/// The full deck: each of the 52 indices once.
pub open spec fn full_deck() -> Multiset<u8> {
    Seq::new(52, |i: int| i as u8).to_multiset()
}

/// The state invariant.
pub open spec fn wf(v: GameView) -> bool {
    &&& v.tableaus.len() == 7
    &&& v.first_unlocked.len() == 7
    &&& v.foundations.len() == 4
    &&& pile_bytes_ok(v.stock)
    &&& pile_bytes_ok(v.waste)
    &&& forall|t: int| 0 <= t < 7 ==> tableau_bytes_ok(#[trigger] v.tableaus[t])
    &&& forall|t: int| 0 <= t < 7 ==> tableau_ok(#[trigger] v.tableaus[t], v.first_unlocked[t])
    &&& foundations_ok(v)
    &&& foundation_mask_ok(v)
    &&& cards_of(v) == full_deck()
}

/// A faithful copy of a vector of stacks: each element holds the same
/// cards.
pub(crate) fn clone_stacks(v: &Vec<CardStack>) -> (r: Vec<CardStack>)
    ensures
        r@.len() == v@.len(),
        forall|j: int| 0 <= j < v@.len() ==> stack_seq(#[trigger] r@[j]) == stack_seq(v@[j]),
        r@.map_values(|s: CardStack| stack_seq(s)) == v@.map_values(|s: CardStack| stack_seq(s)),
{
    let mut r: Vec<CardStack> = Vec::new();
    let mut i: usize = 0;
    while i < v.len()
        invariant
            i <= v@.len(),
            r@.len() == i,
            forall|j: int| 0 <= j < i ==> stack_seq(#[trigger] r@[j]) == stack_seq(v@[j]),
        decreases v@.len() - i,
    {
        r.push(v[i].duplicate());
        i += 1;
    }
    proof {
        assert(r@.map_values(|s: CardStack| stack_seq(s)) =~= v@.map_values(
            |s: CardStack| stack_seq(s),
        ));
    }
    r
}

/// A faithful copy of a byte vector.
pub(crate) fn clone_bytes(v: &Vec<u8>) -> (r: Vec<u8>)
    ensures
        r@ == v@,
{
    let mut r: Vec<u8> = Vec::new();
    let mut i: usize = 0;
    while i < v.len()
        invariant
            i <= v@.len(),
            r@ == v@.take(i as int),
        decreases v@.len() - i,
    {
        r.push(v[i]);
        proof {
            assert(v@.take(i + 1) =~= v@.take(i as int).push(v@[i as int]));
        }
        i += 1;
    }
    proof {
        assert(v@.take(v@.len() as int) =~= v@);
    }
    r
}

impl Game {
    /// A faithful copy: same view, so the same game.
    pub fn duplicate(&self) -> (r: Game)
        ensures
            r@ == self@,
    {
        let r = Game {
            tableaus: clone_stacks(&self.tableaus),
            first_unlocked_idx: clone_bytes(&self.first_unlocked_idx),
            foundations: clone_bytes(&self.foundations),
            foundation_stack: self.foundation_stack,
            stock: self.stock.duplicate(),
            waste: self.waste.duplicate(),
            prev_move: self.prev_move,
        };
        proof {
            assert(r@ =~= self@);
        }
        r
    }

    /// The sum of the four foundation ranks: how many cards have been
    /// promoted, the score the best-first search ranks states by.
    pub fn foundation_score(&self) -> (r: usize)
        requires
            wf(self@),
        ensures
            r == found_rank(self@, 0) + found_rank(self@, 1) + found_rank(self@, 2) + found_rank(
                self@,
                3,
            ),
    {
        let mut acc: usize = 0;
        acc += card_rank(self.foundations[0]) as usize;
        acc += card_rank(self.foundations[1]) as usize;
        acc += card_rank(self.foundations[2]) as usize;
        acc += card_rank(self.foundations[3]) as usize;
        acc
    }

    /// The game is won when the foundations carry all 52 cards.
    pub fn is_game_won(&self) -> (r: bool)
        requires
            wf(self@),
        ensures
            r == won_spec(self@),
    {
        self.foundation_score() == ranking_of_kings()
    }

    pub fn can_draw_from_stock(&self, count: usize) -> (r: bool)
        ensures
            r == (self@.stock.len() >= count),
    {
        self.stock.len() >= count
    }

    /// The tableau rule for laying `card` on column `tableau_idx`: the
    /// column's top card must carry it. An empty column refuses everything
    /// here; the King rule is the move generator's business.
    pub fn can_move_card_to_tableau(&self, card: Card, tableau_idx: usize) -> (r: bool)
        requires
            wf(self@),
            real_card(card),
            tableau_idx < 7,
        ensures
            r == ({
                let t = self@.tableaus[tableau_idx as int];
                t.len() > 0 && fits_on_spec(t.last(), card)
            }),
    {
        if let Some(top_tableau_card) = self.tableaus[tableau_idx].last() {
            can_be_placed_on_top_of(top_tableau_card, card)
        } else {
            false
        }
    }

    /// A card is unlocked when it sits on top of its column or carries
    /// the card above it as a proper face-up run step.
    pub fn is_card_unlocked(&self, tableau_idx: usize, card_idx: usize) -> (r: bool)
        requires
            wf(self@),
            tableau_idx < 7,
            card_idx < self@.tableaus[tableau_idx as int].len(),
        ensures
            r == ({
                let t = self@.tableaus[tableau_idx as int];
                card_idx == t.len() - 1 || (up_of(t[card_idx as int]) && fits_on_spec(
                    t[card_idx as int],
                    t[card_idx as int + 1],
                ))
            }),
    {
        if card_idx == self.tableaus[tableau_idx].len() - 1 {
            true
        } else {
            let card = self.tableaus[tableau_idx].at(card_idx);
            let card_above = self.tableaus[tableau_idx].at(card_idx + 1);
            card.is_face_up() && can_be_placed_on_top_of(card, card_above)
        }
    }

    /// The foundation rule for `card`: its suit's slot shows the rank just
    /// below, or is empty and `card` is an Ace.
    pub fn can_move_card_to_foundation(&self, card: Card) -> (r: bool)
        requires
            wf(self@),
            real_card(card),
        ensures
            r == can_promote_spec(self@, card),
    {
        let top_foundation_card = self.foundations[suit_rank(card) as usize];
        if top_foundation_card != u8::MAX {
            crate::card::are_card_ranks_ascending(top_foundation_card, card)
                && crate::card::are_card_suits_the_same(top_foundation_card, card)
        } else {
            card_rank(card) == 1
        }
    }
}

/// `card` may be promoted: the foundation slot of its suit has reached
/// exactly the rank below its own.
pub open spec fn can_promote_spec(v: GameView, card: u8) -> bool {
    found_rank(v, suit_of(card) as int) + 1 == rank_of(card)
}

/// The game is won: the foundations carry all 52 cards.
pub open spec fn won_spec(v: GameView) -> bool {
    found_rank(v, 0) + found_rank(v, 1) + found_rank(v, 2) + found_rank(v, 3) == 52
}

} // verus!

verus! {

/// The value `set_first_unlocked_index` computes: the least start of a
/// proper run, with the sentinel for an empty tableau.
pub open spec fn fu_min_ok(t: Seq<u8>, fu: u8) -> bool {
    if t.len() == 0 {
        fu == sentinel()
    } else {
        &&& 0 <= fu < t.len()
        &&& run_ok(t, fu as int)
        &&& fu > 0 ==> !(up_of(t[fu - 1]) && fits_on_spec(t[fu - 1], t[fu as int]))
    }
}

/// The cached first unlocked index of a well-formed tableau is the least
/// start of a proper run: recomputing it changes nothing.
pub proof fn lemma_fu_agrees(t: Seq<u8>, p: u8, fu: u8)
    requires
        tableau_ok(t, p),
        fu_min_ok(t, fu),
    ensures
        fu == p,
{
    if t.len() > 0 {
        if fu < p {
            assert(!up_of(t[p - 1]));
            assert(up_of(t[p - 1]) && fits_on_spec(t[p - 1], t[p as int]));
        } else if fu > p {
            assert(up_of(t[fu - 1]) && fits_on_spec(t[fu - 1], t[fu as int]));
        }
    }
}

impl Game {
    /// Recompute the cached first unlocked index of one tableau by
    /// scanning down from the top while the run rule keeps holding.
    pub fn set_first_unlocked_index(&mut self, tableau_idx: usize)
        requires
            tableau_idx < old(self).tableaus@.len(),
            tableau_idx < old(self).first_unlocked_idx@.len(),
            tableau_bytes_ok(old(self)@.tableaus[tableau_idx as int]),
        ensures
            final(self)@.tableaus == old(self)@.tableaus,
            final(self)@.foundations == old(self)@.foundations,
            final(self)@.foundation_stack == old(self)@.foundation_stack,
            final(self)@.stock == old(self)@.stock,
            final(self)@.waste == old(self)@.waste,
            final(self)@.prev_move == old(self)@.prev_move,
            final(self)@.first_unlocked == old(self)@.first_unlocked.update(
                tableau_idx as int,
                final(self)@.first_unlocked[tableau_idx as int],
            ),
            fu_min_ok(
                old(self)@.tableaus[tableau_idx as int],
                final(self)@.first_unlocked[tableau_idx as int],
            ),
    {
        let ghost t = self@.tableaus[tableau_idx as int];
        let n = self.tableaus[tableau_idx].len();
        let fu: u8;
        if n == 0 {
            fu = u8::MAX;
        } else {
            let mut k: usize = n - 1;
            loop
                invariant
                    n == t.len() && n <= 52,
                    k < n,
                    run_ok(t, k as int),
                    tableau_bytes_ok(t),
                    tableau_idx < self.tableaus@.len(),
                    t == self@.tableaus[tableau_idx as int],
                    *self == *old(self),
                ensures
                    k < n,
                    run_ok(t, k as int),
                    k > 0 ==> !(up_of(t[k - 1]) && fits_on_spec(t[k - 1], t[k as int])),
                    *self == *old(self),
                decreases k,
            {
                if k == 0 {
                    break;
                }
                let c = self.tableaus[tableau_idx].at(k - 1);
                let c_above = self.tableaus[tableau_idx].at(k);
                if c.is_face_up() && can_be_placed_on_top_of(c, c_above) {
                    k -= 1;
                } else {
                    break;
                }
            }
            fu = k as u8;
        }
        self.first_unlocked_idx[tableau_idx] = fu;
        proof {
            assert(final(self)@.first_unlocked =~= old(self)@.first_unlocked.update(
                tableau_idx as int,
                final(self)@.first_unlocked[tableau_idx as int],
            ));
        }
    }
}

} // verus!
