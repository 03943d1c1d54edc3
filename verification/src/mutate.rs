//! The mutators: each returns a fresh successor state and is proved to
//! realise its spec-level transformation and to preserve the state
//! invariant, so every reachable state keeps the full deck spread over the
//! containers exactly once.
use vstd::prelude::*;
use vstd::multiset::Multiset;
use vstd::seq_lib::group_to_multiset_ensures;
use vstd::seq_lib::lemma_multiset_commutative;
use crate::card::{
    Card, IsCard, NO_CARD, idx_of, up_of, upturn_of, real_card, rank_of, suit_of, red_of, fits_on_spec,
    king_of, suit_rank, card_rank,
};
use crate::stack::{CardStack, stack_seq};
use crate::game::{
    Game, GameView, wf, run_ok, tableau_ok, tableau_bytes_ok, pile_bytes_ok, found_rank, bit64,
    foundation_mask_ok, foundations_ok, idx_seq, found_run, cards_of, full_deck, sentinel,
    fu_min_ok, lemma_fu_agrees, can_promote_spec, clone_stacks, clone_bytes,
};
use crate::moves::{Move, CardPosition};

verus! {

/// The container sizes of a well-formed state sum to the deck: 52 cards.
pub proof fn lemma_wf_lens(v: GameView)
    requires
        wf(v),
    ensures
        v.stock.len() + v.waste.len() + v.tableaus[0].len() + v.tableaus[1].len()
            + v.tableaus[2].len() + v.tableaus[3].len() + v.tableaus[4].len() + v.tableaus[5].len()
            + v.tableaus[6].len() + found_rank(v, 0) + found_rank(v, 1) + found_rank(v, 2)
            + found_rank(v, 3) == 52,
        forall|s: int| 0 <= s < 4 ==> 0 <= #[trigger] found_rank(v, s) <= 13,
{
    broadcast use group_to_multiset_ensures;
    broadcast use vstd::multiset::group_multiset_axioms;

    assert(cards_of(v).len() == full_deck().len());
    assert(full_deck().len() == 52);
    assert(forall|s: int| 0 <= s < 4 ==> 0 <= #[trigger] found_rank(v, s) <= 13);
}

/// Mapping a sequence to its card indices commutes with concatenation.
pub proof fn lemma_idx_concat(a: Seq<u8>, b: Seq<u8>)
    ensures
        idx_seq(a + b).to_multiset() == idx_seq(a).to_multiset().add(idx_seq(b).to_multiset()),
{
    assert(idx_seq(a + b) =~= idx_seq(a) + idx_seq(b));
    lemma_multiset_commutative(idx_seq(a), idx_seq(b));
    assert(idx_seq(a + b).to_multiset() =~= idx_seq(a).to_multiset().add(
        idx_seq(b).to_multiset(),
    ));
}

/// Dropping the last card takes its index out of the container's multiset.
pub proof fn lemma_idx_drop_last(s: Seq<u8>)
    requires
        s.len() > 0,
    ensures
        idx_seq(s).to_multiset() == idx_seq(s.drop_last()).to_multiset().insert(idx_of(s.last())),
{
    broadcast use group_to_multiset_ensures;

    assert(idx_seq(s) =~= idx_seq(s.drop_last()).push(idx_of(s.last())));
    assert(idx_seq(s).to_multiset() =~= idx_seq(s.drop_last()).to_multiset().insert(
        idx_of(s.last()),
    ));
}

/// Pushing a card puts its index into the container's multiset.
pub proof fn lemma_idx_push(s: Seq<u8>, c: u8)
    ensures
        idx_seq(s.push(c)).to_multiset() == idx_seq(s).to_multiset().insert(idx_of(c)),
{
    broadcast use group_to_multiset_ensures;

    assert(idx_seq(s.push(c)) =~= idx_seq(s).push(idx_of(c)));
    assert(idx_seq(s.push(c)).to_multiset() =~= idx_seq(s).to_multiset().insert(idx_of(c)));
}

/// Reversing a container leaves its multiset of indices alone.
pub proof fn lemma_idx_reverse(s: Seq<u8>)
    ensures
        idx_seq(s.reverse()).to_multiset() == idx_seq(s).to_multiset(),
{
    assert(idx_seq(s.reverse()) =~= idx_seq(s).reverse());
    idx_seq(s).lemma_reverse_to_multiset();
}

/// Turning the top card face up changes no index.
pub proof fn lemma_idx_flip_top(s: Seq<u8>)
    requires
        s.len() > 0,
    ensures
        idx_seq(s.update(s.len() - 1, upturn_of(s.last()))) == idx_seq(s),
{
    assert(idx_seq(s.update(s.len() - 1, upturn_of(s.last()))) =~= idx_seq(s));
}

/// Setting one bit of a mask: every other bit keeps its value.
pub proof fn lemma_bit_or_one(m: u64, i: u64, j: u64)
    requires
        i < 64,
        j < 64,
    ensures
        bit64(m | (1u64 << i), j as int) == (bit64(m, j as int) || i == j),
{
    assert((((m | (1u64 << i)) >> j) & 1u64 == 1u64) == (((m >> j) & 1u64 == 1u64) || i == j))
        by (bit_vector)
        requires
            i < 64,
            j < 64,
    ;
}

/// A slot that grows by one rank swallows exactly the next card of its
/// suit.
pub proof fn lemma_found_run_grow(s: int, r: int)
    requires
        0 <= s < 4,
        0 <= r,
    ensures
        found_run(s, r + 1).to_multiset() == found_run(s, r).to_multiset().insert((13 * s + r) as u8),
{
    broadcast use group_to_multiset_ensures;

    assert(found_run(s, r + 1) =~= found_run(s, r).push((13 * s + r) as u8));
    assert(found_run(s, r + 1).to_multiset() =~= found_run(s, r).to_multiset().insert(
        (13 * s + r) as u8,
    ));
}

/// What a restock does: the waste, reversed, becomes the stock; the old
/// (empty) stock becomes the waste.
pub open spec fn restock_spec(v: GameView) -> GameView {
    GameView { stock: v.waste.reverse(), waste: v.stock, ..v }
}

/// What drawing `count` cards does: they leave the top of the stock and
/// pile onto the waste in the order drawn.
pub open spec fn draw_spec(v: GameView, count: int) -> GameView {
    GameView {
        stock: v.stock.take(v.stock.len() - count),
        waste: v.waste + v.stock.subrange(v.stock.len() - count, v.stock.len() as int).reverse(),
        ..v
    }
}

impl Game {
    /// Turn the waste back into the stock. The stock must be exhausted
    /// and the waste non-empty; no card moves anywhere else.
    pub fn restock(&self) -> (r: Game)
        requires
            wf(self@),
            self@.stock.len() == 0,
            self@.waste.len() > 0,
        ensures
            r@ == restock_spec(self@),
            wf(r@),
    {
        let r = Game {
            tableaus: clone_stacks(&self.tableaus),
            first_unlocked_idx: clone_bytes(&self.first_unlocked_idx),
            foundations: clone_bytes(&self.foundations),
            foundation_stack: self.foundation_stack,
            stock: self.waste.reversed(),
            waste: self.stock.duplicate(),
            prev_move: self.prev_move,
        };
        proof {
            assert(r@ =~= restock_spec(self@));
            assert(pile_bytes_ok(r@.stock)) by {
                assert(forall|j: int|
                    0 <= j < r@.stock.len() ==> #[trigger] r@.stock[j] == self@.waste[self@.waste.len()
                        - 1 - j]);
            }
            lemma_idx_reverse(self@.waste);
            assert(cards_of(r@) =~= cards_of(self@));
            assert(wf(r@));
        }
        r
    }

    /// Draw `count` cards one at a time from the top of the stock onto the
    /// waste.
    pub fn draw_from_stock(&self, count: usize) -> (r: Game)
        requires
            wf(self@),
            count <= self@.stock.len(),
        ensures
            r@ == draw_spec(self@, count as int),
            wf(r@),
    {
        proof {
            lemma_wf_lens(self@);
        }
        let mut g = self.duplicate();
        let mut i: usize = 0;
        while i < count
            invariant
                wf(self@),
                count <= self@.stock.len(),
                i <= count,
                g@ == draw_spec(self@, i as int),
            decreases count - i,
        {
            proof {
                assert(g@.stock.len() == self@.stock.len() - i);
                assert(g@.waste.len() == self@.waste.len() + i);
                lemma_wf_lens(self@);
            }
            let c = g.stock.pop();
            g.waste.push(c);
            proof {
                let n = self@.stock.len() as int;
                assert(g@.stock =~= self@.stock.take(n - i - 1));
                assert(self@.stock.take(n - i).last() == self@.stock[n - i - 1]);
                assert(g@.waste =~= self@.waste + self@.stock.subrange(n - i - 1, n).reverse())
                    by {
                    assert(self@.stock.subrange(n - i - 1, n).reverse() =~= self@.stock.subrange(
                        n - i,
                        n,
                    ).reverse().push(self@.stock[n - i - 1]));
                }
                assert(g@ =~= draw_spec(self@, i + 1));
            }
            i += 1;
        }
        proof {
            let n = self@.stock.len() as int;
            let moved = self@.stock.subrange(n - count, n);
            assert(self@.stock =~= self@.stock.take(n - count) + moved);
            lemma_idx_concat(self@.stock.take(n - count), moved);
            lemma_idx_reverse(moved);
            lemma_idx_concat(self@.waste, moved.reverse());
            assert(cards_of(g@) =~= cards_of(self@));
            assert(pile_bytes_ok(g@.stock));
            assert(pile_bytes_ok(g@.waste)) by {
                assert(forall|j: int|
                    0 <= j < moved.reverse().len() ==> #[trigger] moved.reverse()[j] < 52);
            }
            assert(wf(g@));
        }
        g
    }
}


/// A tableau with its top card turned face up (no card: unchanged).
pub open spec fn flip_top(t: Seq<u8>) -> Seq<u8> {
    if t.len() == 0 {
        t
    } else {
        t.update(t.len() - 1, upturn_of(t.last()))
    }
}

/// What promoting the waste's top card does: it leaves the waste and
/// becomes the new top of its suit's foundation slot; its bit joins the
/// mask.
pub open spec fn w2f_spec(v: GameView) -> GameView {
    let c = v.waste.last();
    GameView {
        waste: v.waste.drop_last(),
        foundations: v.foundations.update(suit_of(c) as int, c),
        foundation_stack: v.foundation_stack | (1u64 << (idx_of(c) as u64)),
        ..v
    }
}

/// What promoting a tableau's top card does: it leaves the column, the
/// newly exposed card turns face up, the cached first unlocked index is
/// clipped to the shorter column, and the foundation swallows the card.
pub open spec fn t2f_spec(v: GameView, i: int) -> GameView {
    let t = v.tableaus[i];
    let c = t.last();
    let t2 = flip_top(t.drop_last());
    let fu2 = if t2.len() == 0 {
        sentinel()
    } else if (v.first_unlocked[i] as int) < t2.len() {
        v.first_unlocked[i]
    } else {
        (t2.len() - 1) as u8
    };
    GameView {
        tableaus: v.tableaus.update(i, t2),
        first_unlocked: v.first_unlocked.update(i, fu2),
        foundations: v.foundations.update(suit_of(c) as int, c),
        foundation_stack: v.foundation_stack | (1u64 << (idx_of(c) as u64)),
        ..v
    }
}

/// After the promotion of card `c` the mask still mirrors the foundation
/// tops.
proof fn lemma_mask_after_promote(v: GameView, v2: GameView, c: u8)
    requires
        wf(v),
        c < 52,
        can_promote_spec(v, c),
        v2.foundation_stack == v.foundation_stack | (1u64 << (c as u64)),
        v2.foundations == v.foundations.update(suit_of(c) as int, c),
    ensures
        foundation_mask_ok(v2),
        foundations_ok(v2),
{
    let s = suit_of(c) as int;
    assert(idx_of(c) == c);
    assert(rank_of(c) == c % 13 + 1);
    assert(suit_of(c) == c / 13);
    assert forall|j: int| 0 <= j < 64 implies (#[trigger] bit64(v2.foundation_stack, j) <==> (j < 52
        && j % 13 + 1 <= found_rank(v2, j / 13))) by {
        lemma_bit_or_one(v.foundation_stack, c as u64, j as u64);
        assert(bit64(v2.foundation_stack, j) == (bit64(v.foundation_stack, j) || c == j));
        if j < 52 && j / 13 == s && j != c {
            assert(j == 13 * (j / 13) + j % 13);
            assert(c == 13 * (c / 13) + c % 13);
            assert(j % 13 != c % 13);
        }
    }
}

/// The indices of a game change by: one card index leaves the waste and
/// enters its foundation run.
proof fn lemma_cards_after_w2f(v: GameView)
    requires
        wf(v),
        v.waste.len() > 0,
        can_promote_spec(v, v.waste.last()),
    ensures
        cards_of(w2f_spec(v)) == cards_of(v),
{
    let c = v.waste.last();
    let s = suit_of(c) as int;
    let r = found_rank(v, s);
    assert(c < 52);
    assert(idx_of(c) == c);
    lemma_idx_drop_last(v.waste);
    lemma_found_run_grow(s, r);
    assert(c == 13 * (c / 13) + c % 13);
    assert(c as int == 13 * s + r);
    let v2 = w2f_spec(v);
    assert(found_rank(v2, s) == r + 1);
    assert(forall|q: int| 0 <= q < 4 && q != s ==> #[trigger] found_rank(v2, q) == found_rank(v, q));
    assert(cards_of(w2f_spec(v)) =~= cards_of(v));
}

impl Game {
    /// Promote the waste's top card onto its foundation slot.
    pub fn move_from_waste_to_foundation(&self) -> (r: Game)
        requires
            wf(self@),
            self@.waste.len() > 0,
            can_promote_spec(self@, self@.waste.last()),
        ensures
            r@ == w2f_spec(self@),
            wf(r@),
    {
        let mut g = self.duplicate();
        let card = g.waste.pop();
        proof {
            assert(card < 52);
            assert(idx_of(card) == card);
            assert(suit_of(card) < 4);
        }
        g.foundations[suit_rank(card) as usize] = card;
        g.foundation_stack = g.foundation_stack | (1u64 << (card as u64));
        proof {
            assert(g@ =~= w2f_spec(self@));
            lemma_mask_after_promote(self@, g@, card);
            lemma_cards_after_w2f(self@);
            assert(wf(g@));
        }
        g
    }
}


/// Ranks, suits and the tableau rule see only the card index, so turning
/// a card face up changes none of them.
proof fn lemma_upturn_same_card(c: u8)
    requires
        c < 128,
    ensures
        rank_of(upturn_of(c)) == rank_of(c),
        red_of(upturn_of(c)) == red_of(c),
        idx_of(upturn_of(c)) == idx_of(c),
        upturn_of(c) < 128,
        real_card(c) ==> real_card(upturn_of(c)),
{
}

/// Cutting a tableau at `k` (at or above its first unlocked index) and
/// turning the new top face up leaves a well-formed tableau whose first
/// unlocked index is the old one clipped to the shorter column.
proof fn lemma_tableau_after_cut(t: Seq<u8>, fu: u8, k: int)
    requires
        tableau_ok(t, fu),
        tableau_bytes_ok(t),
        0 < t.len(),
        fu as int <= k < t.len(),
        k == 0 ==> t.len() >= 1,
    ensures
        tableau_bytes_ok(flip_top(t.take(k))),
        k > 0 ==> tableau_ok(
            flip_top(t.take(k)),
            if (fu as int) < k {
                fu
            } else {
                (k - 1) as u8
            },
        ),
        k == 0 ==> flip_top(t.take(k)).len() == 0,
{
    if k > 0 {
        let t2 = flip_top(t.take(k));
        assert(t2 =~= t.take(k).update(k - 1, upturn_of(t[k - 1])));
        lemma_upturn_same_card(t[k - 1]);
        assert(tableau_bytes_ok(t2));
        let p: u8 = if (fu as int) < k {
            fu
        } else {
            (k - 1) as u8
        };
        assert(up_of(t2.last()));
        assert(forall|j: int| 0 <= j < p ==> !up_of(#[trigger] t2[j]));
        assert(run_ok(t2, p as int)) by {
            assert forall|j: int| p <= j < t2.len() - 1 implies up_of(#[trigger] t2[j])
                && fits_on_spec(t2[j], t2[j + 1]) by {
                assert(t2[j] == t[j]);
                assert(fu <= j < t.len() - 1);
                assert(up_of(t[j]) && fits_on_spec(t[j], t[j + 1]));
                if j + 1 == k - 1 {
                    lemma_upturn_same_card(t[j + 1]);
                }
            }
        }
        assert(tableau_ok(t2, p));
    }
}

/// The indices of a game change by: the top of tableau `i` leaves the
/// column and enters its foundation run.
proof fn lemma_cards_after_t2f(v: GameView, i: int)
    requires
        wf(v),
        0 <= i < 7,
        v.tableaus[i].len() > 0,
        can_promote_spec(v, v.tableaus[i].last()),
    ensures
        cards_of(t2f_spec(v, i)) == cards_of(v),
{
    let t = v.tableaus[i];
    let c = t.last();
    assert(up_of(c) && c < 128);
    assert(c < 64);
    assert(c < 52);
    assert(idx_of(c) == c);
    let s = suit_of(c) as int;
    let r = found_rank(v, s);
    lemma_idx_drop_last(t);
    if t.drop_last().len() > 0 {
        lemma_idx_flip_top(t.drop_last());
    }
    assert(idx_seq(flip_top(t.drop_last())) == idx_seq(t.drop_last()));
    lemma_found_run_grow(s, r);
    assert(c == 13 * (c / 13) + c % 13);
    assert(c as int == 13 * s + r);
    let v2 = t2f_spec(v, i);
    assert(found_rank(v2, s) == r + 1);
    assert(forall|q: int| 0 <= q < 4 && q != s ==> #[trigger] found_rank(v2, q) == found_rank(v, q));
    assert(cards_of(v2) =~= cards_of(v));
}

impl Game {
    /// Promote the top card of tableau `tableau_idx` onto its foundation
    /// slot; the newly exposed card turns face up.
    #[verifier::rlimit(60)]
    pub fn move_from_tableau_to_foundation(&self, tableau_idx: u8) -> (r: Game)
        requires
            wf(self@),
            tableau_idx < 7,
            self@.tableaus[tableau_idx as int].len() > 0,
            can_promote_spec(self@, self@.tableaus[tableau_idx as int].last()),
        ensures
            r@ == t2f_spec(self@, tableau_idx as int),
            wf(r@),
    {
        let ti = tableau_idx as usize;
        let ghost t = self@.tableaus[ti as int];
        let ghost fu = self@.first_unlocked[ti as int];
        let mut g = self.duplicate();
        let card = g.tableaus[ti].pop();
        g.tableaus[ti].flip_face_up();
        proof {
            assert(up_of(card) && card < 128);
            assert(card < 64);
            assert(card < 52);
            assert(idx_of(card) == card);
            assert(suit_of(card) < 4);
            assert(g@.tableaus[ti as int] == flip_top(t.drop_last()));
            lemma_tableau_after_cut(t, fu, t.len() - 1);
        }
        g.foundations[suit_rank(card) as usize] = card;
        g.set_first_unlocked_index(ti);
        g.foundation_stack = g.foundation_stack | (1u64 << (card as u64));
        proof {
            let t2 = flip_top(t.drop_last());
            let fu2 = if t2.len() == 0 {
                sentinel()
            } else if (fu as int) < t2.len() {
                fu
            } else {
                (t2.len() - 1) as u8
            };
            if t2.len() > 0 {
                lemma_fu_agrees(t2, fu2, g@.first_unlocked[ti as int]);
            }
            assert(g@.first_unlocked[ti as int] == fu2);
            assert(g@ =~= t2f_spec(self@, ti as int));
            lemma_mask_after_promote(self@, g@, card);
            lemma_cards_after_t2f(self@, ti as int);
            assert(forall|q: int|
                0 <= q < 7 && q != ti ==> #[trigger] g@.tableaus[q] == self@.tableaus[q]);
            assert(wf(g@));
        }
        g
    }
}


/// What laying the waste's top card on tableau `i` does. A previously
/// empty column starts its run at the new card.
pub open spec fn w2t_spec(v: GameView, i: int) -> GameView {
    let c = v.waste.last();
    let t = v.tableaus[i];
    GameView {
        waste: v.waste.drop_last(),
        tableaus: v.tableaus.update(i, t.push(c)),
        first_unlocked: if t.len() == 0 {
            v.first_unlocked.update(i, 0u8)
        } else {
            v.first_unlocked
        },
        ..v
    }
}

/// What moving the run of tableau `i` from card `k` up onto tableau `j`
/// does: the run moves whole, the shortened column's new top turns face
/// up, and both cached first unlocked indices follow.
pub open spec fn t2t_spec(v: GameView, i: int, k: int, j: int) -> GameView {
    let t_from = v.tableaus[i];
    let t_to = v.tableaus[j];
    let moved = t_from.subrange(k, t_from.len() as int);
    let t_from2 = flip_top(t_from.take(k));
    let fu_from2 = if k == 0 {
        sentinel()
    } else if (v.first_unlocked[i] as int) < k {
        v.first_unlocked[i]
    } else {
        (k - 1) as u8
    };
    let fu_to2 = if t_to.len() == 0 {
        0u8
    } else {
        v.first_unlocked[j]
    };
    GameView {
        tableaus: v.tableaus.update(i, t_from2).update(j, t_to + moved),
        first_unlocked: v.first_unlocked.update(i, fu_from2).update(j, fu_to2),
        ..v
    }
}

/// The legality conditions of a tableau-to-tableau move of the run of
/// column `i` starting at `k` onto column `j`.
pub open spec fn t2t_ok(v: GameView, i: int, k: int, j: int) -> bool {
    &&& wf(v)
    &&& 0 <= i < 7
    &&& 0 <= j < 7
    &&& i != j
    &&& v.tableaus[i].len() > 0
    &&& v.first_unlocked[i] as int <= k < v.tableaus[i].len()
    &&& ({
        let c = v.tableaus[i][k];
        let t_to = v.tableaus[j];
        if t_to.len() == 0 {
            king_of(c)
        } else {
            fits_on_spec(t_to.last(), c)
        }
    })
}

/// The receiving column of a legal tableau-to-tableau move is again a
/// well-formed tableau: the moved run continues its unlocked run.
proof fn lemma_t2t_to_column(v: GameView, i: int, k: int, j: int)
    requires
        t2t_ok(v, i, k, j),
    ensures
        tableau_ok(
            v.tableaus[j] + v.tableaus[i].subrange(k, v.tableaus[i].len() as int),
            if v.tableaus[j].len() == 0 {
                0u8
            } else {
                v.first_unlocked[j]
            },
        ),
        tableau_bytes_ok(v.tableaus[j] + v.tableaus[i].subrange(k, v.tableaus[i].len() as int)),
{
    let t_from = v.tableaus[i];
    let t_to = v.tableaus[j];
    let fu_from = v.first_unlocked[i];
    let fu_to = v.first_unlocked[j];
    let moved = t_from.subrange(k, t_from.len() as int);
    let t_to2 = t_to + moved;
    let fu_to2 = if t_to.len() == 0 {
        0u8
    } else {
        fu_to
    };
    assert(forall|q: int| 0 <= q < t_to.len() ==> #[trigger] t_to2[q] == t_to[q]);
    assert(forall|q: int|
        t_to.len() <= q < t_to2.len() ==> #[trigger] t_to2[q] == t_from[k + q - t_to.len()]);
    assert(up_of(t_to2.last()));
    assert forall|q: int| fu_to2 <= q < t_to2.len() - 1 implies up_of(#[trigger] t_to2[q])
        && fits_on_spec(t_to2[q], t_to2[q + 1]) by {
        if q < t_to.len() - 1 {
            assert(up_of(t_to[q]) && fits_on_spec(t_to[q], t_to[q + 1]));
        } else if q == t_to.len() - 1 {
            assert(t_to2[q] == t_to.last());
            assert(t_to2[q + 1] == t_from[k]);
        } else {
            let w = k + q - t_to.len();
            assert(t_to2[q] == t_from[w] && t_to2[q + 1] == t_from[w + 1]);
            assert(fu_from <= w < t_from.len() - 1);
            assert(up_of(t_from[w]) && fits_on_spec(t_from[w], t_from[w + 1]));
        }
    }
    assert(tableau_ok(t_to2, fu_to2));
}

/// A legal tableau-to-tableau move keeps every card: the moved run only
/// changes columns.
proof fn lemma_t2t_cards(v: GameView, i: int, k: int, j: int)
    requires
        t2t_ok(v, i, k, j),
    ensures
        cards_of(t2t_spec(v, i, k, j)) == cards_of(v),
{
    let t_from = v.tableaus[i];
    let t_to = v.tableaus[j];
    let moved = t_from.subrange(k, t_from.len() as int);
    let t_from2 = flip_top(t_from.take(k));
    assert(t_from =~= t_from.take(k) + moved);
    lemma_idx_concat(t_from.take(k), moved);
    lemma_idx_concat(t_to, moved);
    if k > 0 {
        lemma_idx_flip_top(t_from.take(k));
    }
    assert(idx_seq(t_from2) == idx_seq(t_from.take(k)));
    let v2 = t2t_spec(v, i, k, j);
    assert(v2.tableaus[i] == t_from2 && v2.tableaus[j] == t_to + moved);
    assert(forall|q: int|
        0 <= q < 7 && q != i && q != j ==> #[trigger] v2.tableaus[q] == v.tableaus[q]);
    assert(forall|q: int| 0 <= q < 4 ==> #[trigger] found_rank(v2, q) == found_rank(v, q));
    assert(cards_of(v2) =~= cards_of(v));
}

/// A legal tableau-to-tableau move preserves the state invariant.
proof fn lemma_t2t_wf(v: GameView, i: int, k: int, j: int)
    requires
        t2t_ok(v, i, k, j),
    ensures
        wf(t2t_spec(v, i, k, j)),
{
    let t_from = v.tableaus[i];
    let fu_from = v.first_unlocked[i];
    let v2 = t2t_spec(v, i, k, j);
    lemma_tableau_after_cut(t_from, fu_from, k);
    lemma_t2t_to_column(v, i, k, j);
    lemma_t2t_cards(v, i, k, j);
    assert(forall|q: int|
        0 <= q < 7 && q != i && q != j ==> #[trigger] v2.tableaus[q] == v.tableaus[q]
            && v2.first_unlocked[q] == v.first_unlocked[q]);
    assert(forall|q: int| 0 <= q < 4 ==> #[trigger] found_rank(v2, q) == found_rank(v, q));
    assert(tableau_bytes_ok(v2.tableaus[i]));
    assert(tableau_ok(v2.tableaus[i], v2.first_unlocked[i]));
    assert(wf(v2));
}

impl Game {
    /// Lay the waste's top card on tableau `tableau_idx`. The column's top
    /// card must carry it, or the column is empty and the card is a King.
    #[verifier::rlimit(60)]
    pub fn move_from_waste_to_tableau(&self, tableau_idx: u8) -> (r: Game)
        requires
            wf(self@),
            tableau_idx < 7,
            self@.waste.len() > 0,
            ({
                let c = self@.waste.last();
                let t = self@.tableaus[tableau_idx as int];
                if t.len() == 0 {
                    king_of(c)
                } else {
                    fits_on_spec(t.last(), c)
                }
            }),
        ensures
            r@ == w2t_spec(self@, tableau_idx as int),
            wf(r@),
    {
        let ti = tableau_idx as usize;
        let ghost t = self@.tableaus[ti as int];
        proof {
            lemma_wf_lens(self@);
        }
        let mut g = self.duplicate();
        let card = g.waste.pop();
        g.tableaus[ti].push(card);
        if g.tableaus[ti].len() == 1 {
            g.set_first_unlocked_index(ti);
        }
        proof {
            assert(card < 52);
            let t2 = t.push(card);
            if t.len() == 0 {
                assert(tableau_ok(t2, 0u8));
                lemma_fu_agrees(t2, 0u8, g@.first_unlocked[ti as int]);
                assert(g@.first_unlocked =~= self@.first_unlocked.update(ti as int, 0u8));
            } else {
                assert(tableau_ok(t2, self@.first_unlocked[ti as int])) by {
                    assert(forall|j: int|
                        0 <= j < t.len() ==> #[trigger] t2[j] == t[j]);
                    assert(up_of(t2[t.len() - 1]));
                }
            }
            assert(g@ =~= w2t_spec(self@, ti as int));
            lemma_idx_drop_last(self@.waste);
            lemma_idx_push(t, card);
            assert(cards_of(g@) =~= cards_of(self@));
            assert(forall|q: int|
                0 <= q < 7 && q != ti ==> #[trigger] g@.tableaus[q] == self@.tableaus[q]);
            assert(wf(g@));
        }
        g
    }

    /// Move the run of tableau `from_index` that starts at `card_idx`
    /// (at or above the first unlocked card) onto tableau `to_index`.
    #[verifier::rlimit(100)]
    #[verifier::spinoff_prover]
    pub fn move_stack_between_tableaus(&self, from_index: u8, card_idx: u8, to_index: u8) -> (r:
        Game)
        requires
            wf(self@),
            from_index < 7,
            to_index < 7,
            from_index != to_index,
            self@.tableaus[from_index as int].len() > 0,
            self@.first_unlocked[from_index as int] <= card_idx
                < self@.tableaus[from_index as int].len(),
            ({
                let c = self@.tableaus[from_index as int][card_idx as int];
                let t_to = self@.tableaus[to_index as int];
                if t_to.len() == 0 {
                    king_of(c)
                } else {
                    fits_on_spec(t_to.last(), c)
                }
            }),
        ensures
            r@ == t2t_spec(self@, from_index as int, card_idx as int, to_index as int),
            wf(r@),
    {
        let fi = from_index as usize;
        let ti = to_index as usize;
        let k = card_idx as usize;
        let ghost t_from = self@.tableaus[fi as int];
        let ghost t_to = self@.tableaus[ti as int];
        let ghost fu_from = self@.first_unlocked[fi as int];
        let ghost fu_to = self@.first_unlocked[ti as int];
        proof {
            lemma_wf_lens(self@);
        }
        let mut g = self.duplicate();
        let n = g.tableaus[fi].len();
        let mut j: usize = k;
        proof {
            assert(t_to + t_from.subrange(k as int, k as int) =~= t_to);
            assert(forall|q: int|
                0 <= q < 7 ==> #[trigger] stack_seq(g.tableaus@[q]) == self@.tableaus[q]);
        }
        while j < n
            invariant
                fi < 7 && ti < 7 && fi != ti,
                t_from == self@.tableaus[fi as int],
                t_to == self@.tableaus[ti as int],
                n == t_from.len(),
                k <= j <= n,
                k < n,
                t_to.len() + n <= 52,
                g.tableaus@.len() == 7,
                forall|q: int|
                    0 <= q < 7 && q != ti ==> #[trigger] stack_seq(g.tableaus@[q])
                        == self@.tableaus[q],
                stack_seq(g.tableaus@[ti as int]) == t_to + t_from.subrange(k as int, j as int),
                g.first_unlocked_idx@ == self.first_unlocked_idx@,
                g.foundations@ == self.foundations@,
                g.foundation_stack == self.foundation_stack,
                g.stock@ == self.stock@,
                g.waste@ == self.waste@,
                g.prev_move == self.prev_move,
            decreases n - j,
        {
            let c = g.tableaus[fi].at(j);
            g.tableaus[ti].push(c);
            proof {
                assert(stack_seq(g.tableaus@[ti as int]) == (t_to + t_from.subrange(
                    k as int,
                    j as int,
                )).push(t_from[j as int]));
                assert(t_to + t_from.subrange(k as int, j + 1) =~= (t_to + t_from.subrange(
                    k as int,
                    j as int,
                )).push(t_from[j as int]));
            }
            j += 1;
        }
        proof {
            assert(t_from.subrange(k as int, n as int) == t_from.subrange(k as int, j as int));
        }
        g.tableaus[fi].truncate(k);
        g.tableaus[fi].flip_face_up();
        proof {
            assert(stack_seq(g.tableaus@[fi as int]) == flip_top(t_from.take(k as int)));
            lemma_tableau_after_cut(t_from, fu_from, k as int);
            assert(g@.tableaus =~= self@.tableaus.update(
                fi as int,
                flip_top(t_from.take(k as int)),
            ).update(ti as int, t_to + t_from.subrange(k as int, n as int))) by {
                assert(forall|q: int|
                    0 <= q < 7 ==> #[trigger] g@.tableaus[q] == stack_seq(g.tableaus@[q]));
            }
        }
        g.set_first_unlocked_index(fi);
        proof {
            let t_from2 = flip_top(t_from.take(k as int));
            let fu_from2 = if k == 0 {
                sentinel()
            } else if (fu_from as int) < k {
                fu_from
            } else {
                (k - 1) as u8
            };
            if k > 0 {
                lemma_fu_agrees(t_from2, fu_from2, g@.first_unlocked[fi as int]);
            }
            assert(g@.first_unlocked[fi as int] == fu_from2);
        }
        g.set_first_unlocked_index(ti);
        proof {
            let moved = t_from.subrange(k as int, n as int);
            let t_to2 = t_to + moved;
            let fu_to2 = if t_to.len() == 0 {
                0u8
            } else {
                fu_to
            };
            lemma_t2t_to_column(self@, fi as int, k as int, ti as int);
            lemma_fu_agrees(t_to2, fu_to2, g@.first_unlocked[ti as int]);
            assert(g@.first_unlocked[ti as int] == fu_to2);
            let fu_from2 = if k == 0 {
                sentinel()
            } else if (fu_from as int) < k {
                fu_from
            } else {
                (k - 1) as u8
            };
            assert(g@.first_unlocked =~= self@.first_unlocked.update(fi as int, fu_from2).update(
                ti as int,
                fu_to2,
            ));
            assert(g@ =~= t2t_spec(self@, fi as int, k as int, ti as int));
            lemma_t2t_wf(self@, fi as int, k as int, ti as int);
        }
        g
    }
}


/// When a move applies to a state: the conditions under which the
/// matching mutator is defined. The card index inside a position is
/// meaningful only where a mutator reads it (the start of a moved run).
pub open spec fn legal_spec(v: GameView, m: Move) -> bool {
    match (m.from, m.to) {
        (CardPosition::Stock, CardPosition::Waste) => v.stock.len() > 0,
        (CardPosition::Waste, CardPosition::Stock) => v.stock.len() == 0 && v.waste.len() > 0,
        (CardPosition::Waste, CardPosition::Foundation(_)) => v.waste.len() > 0
            && can_promote_spec(v, v.waste.last()),
        (CardPosition::Waste, CardPosition::Tableau(i, _)) => {
            &&& i < 7
            &&& v.waste.len() > 0
            &&& ({
                let c = v.waste.last();
                let t = v.tableaus[i as int];
                if t.len() == 0 {
                    king_of(c)
                } else {
                    fits_on_spec(t.last(), c)
                }
            })
        },
        (CardPosition::Tableau(i, _), CardPosition::Foundation(_)) => i < 7 && v.tableaus[
            i as int
        ].len() > 0 && can_promote_spec(v, v.tableaus[i as int].last()),
        (CardPosition::Tableau(i, k), CardPosition::Tableau(j, _)) => {
            &&& i < 7
            &&& j < 7
            &&& i != j
            &&& v.tableaus[i as int].len() > 0
            &&& v.first_unlocked[i as int] as int <= k as int
            &&& (k as int) < v.tableaus[i as int].len()
            &&& ({
                let c = v.tableaus[i as int][k as int];
                let t_to = v.tableaus[j as int];
                if t_to.len() == 0 {
                    king_of(c)
                } else {
                    fits_on_spec(t_to.last(), c)
                }
            })
        },
        _ => false,
    }
}

/// The successor state a move produces, with the move recorded. On a
/// move that `legal_spec` refuses the state is returned unchanged (but
/// for the record); `handle_move` never takes that branch.
pub open spec fn apply_spec(v: GameView, m: Move) -> GameView {
    let v2 = match (m.from, m.to) {
        (CardPosition::Stock, CardPosition::Waste) => draw_spec(v, 1),
        (CardPosition::Waste, CardPosition::Stock) => restock_spec(v),
        (CardPosition::Waste, CardPosition::Foundation(_)) => w2f_spec(v),
        (CardPosition::Waste, CardPosition::Tableau(i, _)) => w2t_spec(v, i as int),
        (CardPosition::Tableau(i, _), CardPosition::Foundation(_)) => t2f_spec(v, i as int),
        (CardPosition::Tableau(i, k), CardPosition::Tableau(j, _)) => t2t_spec(
            v,
            i as int,
            k as int,
            j as int,
        ),
        _ => v,
    };
    GameView { prev_move: Some(m), ..v2 }
}

impl Game {
    /// Apply one legal move, returning the successor state with the move
    /// recorded in it.
    #[verifier::rlimit(60)]
    pub fn handle_move(&self, mv: &Move) -> (r: Game)
        requires
            wf(self@),
            legal_spec(self@, *mv),
        ensures
            r@ == apply_spec(self@, *mv),
            wf(r@),
    {
        let mut game = match (mv.from, mv.to) {
            (CardPosition::Stock, CardPosition::Waste) => self.draw_from_stock(1),
            (CardPosition::Waste, CardPosition::Stock) => self.restock(),
            (CardPosition::Waste, CardPosition::Foundation(_)) => {
                self.move_from_waste_to_foundation()
            },
            (CardPosition::Waste, CardPosition::Tableau(tableau_idx, _)) => {
                self.move_from_waste_to_tableau(tableau_idx)
            },
            (CardPosition::Tableau(tableau_idx, _), CardPosition::Foundation(_)) => {
                self.move_from_tableau_to_foundation(tableau_idx)
            },
            (
                CardPosition::Tableau(from_tableau_idx, card_idx),
                CardPosition::Tableau(to_tableau_idx, _),
            ) => self.move_stack_between_tableaus(from_tableau_idx, card_idx, to_tableau_idx),
            _ => self.duplicate(),
        };
        game.prev_move = Some(*mv);
        proof {
            assert(game@ =~= apply_spec(self@, *mv));
            assert(cards_of(game@) == cards_of(apply_spec(self@, *mv)));
            assert(wf(game@));
        }
        game
    }
}


/// A restock preserves the state invariant: the cards only change piles.
pub proof fn lemma_restock_wf(v: GameView)
    requires
        wf(v),
    ensures
        wf(restock_spec(v)),
{
    let v2 = restock_spec(v);
    assert(pile_bytes_ok(v2.stock)) by {
        assert(forall|j: int|
            0 <= j < v2.stock.len() ==> #[trigger] v2.stock[j] == v.waste[v.waste.len() - 1 - j]);
    }
    lemma_idx_reverse(v.waste);
    assert(cards_of(v2) =~= cards_of(v));
    assert(forall|q: int| 0 <= q < 4 ==> #[trigger] found_rank(v2, q) == found_rank(v, q));
    assert(wf(v2));
}

/// A draw preserves the state invariant.
pub proof fn lemma_draw_wf(v: GameView, count: int)
    requires
        wf(v),
        0 <= count <= v.stock.len(),
    ensures
        wf(draw_spec(v, count)),
{
    let v2 = draw_spec(v, count);
    let n = v.stock.len() as int;
    let moved = v.stock.subrange(n - count, n);
    assert(v.stock =~= v.stock.take(n - count) + moved);
    lemma_idx_concat(v.stock.take(n - count), moved);
    lemma_idx_reverse(moved);
    lemma_idx_concat(v.waste, moved.reverse());
    assert(cards_of(v2) =~= cards_of(v));
    assert(pile_bytes_ok(v2.stock));
    assert(pile_bytes_ok(v2.waste)) by {
        assert(forall|j: int|
            0 <= j < moved.reverse().len() ==> #[trigger] moved.reverse()[j] < 52);
    }
    assert(forall|q: int| 0 <= q < 4 ==> #[trigger] found_rank(v2, q) == found_rank(v, q));
    assert(wf(v2));
}

/// Promoting the waste's top card preserves the state invariant.
pub proof fn lemma_w2f_wf(v: GameView)
    requires
        wf(v),
        v.waste.len() > 0,
        can_promote_spec(v, v.waste.last()),
    ensures
        wf(w2f_spec(v)),
{
    let v2 = w2f_spec(v);
    let c = v.waste.last();
    assert(c < 52);
    assert(idx_of(c) == c);
    lemma_mask_after_promote(v, v2, c);
    lemma_cards_after_w2f(v);
    assert(pile_bytes_ok(v2.waste));
    assert(wf(v2));
}

/// Promoting a tableau's top card preserves the state invariant.
pub proof fn lemma_t2f_wf(v: GameView, i: int)
    requires
        wf(v),
        0 <= i < 7,
        v.tableaus[i].len() > 0,
        can_promote_spec(v, v.tableaus[i].last()),
    ensures
        wf(t2f_spec(v, i)),
{
    let v2 = t2f_spec(v, i);
    let t = v.tableaus[i];
    let fu = v.first_unlocked[i];
    let c = t.last();
    assert(up_of(c) && c < 128);
    assert(c < 64);
    assert(c < 52);
    assert(idx_of(c) == c);
    lemma_mask_after_promote(v, v2, c);
    lemma_cards_after_t2f(v, i);
    lemma_tableau_after_cut(t, fu, t.len() - 1);
    assert(forall|q: int|
        0 <= q < 7 && q != i ==> #[trigger] v2.tableaus[q] == v.tableaus[q]
            && v2.first_unlocked[q] == v.first_unlocked[q]);
    assert(tableau_ok(v2.tableaus[i], v2.first_unlocked[i]));
    assert(tableau_bytes_ok(v2.tableaus[i]));
    assert(wf(v2));
}

/// Laying the waste's top card on a tableau preserves the invariant.
pub proof fn lemma_w2t_wf(v: GameView, i: int)
    requires
        wf(v),
        0 <= i < 7,
        v.waste.len() > 0,
        ({
            let c = v.waste.last();
            let t = v.tableaus[i];
            if t.len() == 0 {
                king_of(c)
            } else {
                fits_on_spec(t.last(), c)
            }
        }),
    ensures
        wf(w2t_spec(v, i)),
{
    let v2 = w2t_spec(v, i);
    let c = v.waste.last();
    let t = v.tableaus[i];
    let t2 = t.push(c);
    assert(c < 52);
    if t.len() == 0 {
        assert(tableau_ok(t2, 0u8));
    } else {
        assert(tableau_ok(t2, v.first_unlocked[i])) by {
            assert(forall|j: int| 0 <= j < t.len() ==> #[trigger] t2[j] == t[j]);
            assert(up_of(t2[t.len() - 1]));
        }
    }
    lemma_idx_drop_last(v.waste);
    lemma_idx_push(t, c);
    assert(cards_of(v2) =~= cards_of(v));
    assert(forall|q: int|
        0 <= q < 7 && q != i ==> #[trigger] v2.tableaus[q] == v.tableaus[q]);
    assert(forall|q: int| 0 <= q < 4 ==> #[trigger] found_rank(v2, q) == found_rank(v, q));
    assert(tableau_bytes_ok(t2));
    assert(wf(v2));
}

/// Every legal move leads from a well-formed state to a well-formed
/// state: the state invariant holds of everything reachable.
pub proof fn lemma_apply_wf(v: GameView, m: Move)
    requires
        wf(v),
        legal_spec(v, m),
    ensures
        wf(apply_spec(v, m)),
{
    match (m.from, m.to) {
        (CardPosition::Stock, CardPosition::Waste) => {
            lemma_draw_wf(v, 1);
        },
        (CardPosition::Waste, CardPosition::Stock) => {
            lemma_restock_wf(v);
        },
        (CardPosition::Waste, CardPosition::Foundation(_)) => {
            lemma_w2f_wf(v);
        },
        (CardPosition::Waste, CardPosition::Tableau(i, _)) => {
            lemma_w2t_wf(v, i as int);
        },
        (CardPosition::Tableau(i, _), CardPosition::Foundation(_)) => {
            lemma_t2f_wf(v, i as int);
        },
        (CardPosition::Tableau(i, k), CardPosition::Tableau(j, _)) => {
            lemma_t2t_wf(v, i as int, k as int, j as int);
        },
        _ => {
            assert(false);
        },
    }
    let v2 = apply_spec(v, m);
    assert(cards_of(v2) == full_deck()) by {
        assert(forall|q: int| 0 <= q < 4 ==> #[trigger] found_rank(v2, q) == found_rank(
            GameView { prev_move: v2.prev_move, ..v2 },
            q,
        ));
    }
}

} // verus!
