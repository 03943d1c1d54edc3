//! Moves: where a card (or run of cards) comes from and where it goes,
//! and the generator that enumerates every move the rules allow from a
//! state, with the one pruning rule the search relies on: a run is split
//! in the middle only when the split exposes a card that can go straight
//! to a foundation.
use vstd::prelude::*;
use vstd::seq_lib::lemma_seq_contains_after_push;
use crate::card::{Card, IsCard, idx_of, up_of, real_card, rank_of, suit_of, king_of, fits_on_spec, suit_rank, is_king, can_be_placed_on_top_of};
use crate::stack::{CardStack, stack_seq};
use crate::game::{Game, GameView, wf, tableau_ok, sentinel, can_promote_spec};

verus! {

/// A place a card can stand. A tableau position carries the column and the
/// index of the card inside the column.
#[derive(Clone, Copy, Debug, Hash, PartialEq, Eq, Structural)]
pub enum CardPosition {
    Stock,
    Waste,
    Foundation(u8),
    Tableau(u8, u8),
}

#[derive(Clone, Copy, Debug, Hash, PartialEq, Eq, Structural)]
pub struct Move {
    pub from: CardPosition,
    pub to: CardPosition,
}

} // verus!

verus! {

/// The move the stock offers: draw when it has cards, restock when only
/// the waste has.
pub open spec fn stock_move_spec(v: GameView) -> Option<Move> {
    if v.stock.len() > 0 {
        Some(Move { from: CardPosition::Stock, to: CardPosition::Waste })
    } else if v.waste.len() > 0 {
        Some(Move { from: CardPosition::Waste, to: CardPosition::Stock })
    } else {
        None
    }
}

/// The promotion the waste offers, if its top card is foundation-ready.
pub open spec fn w2f_move_spec(v: GameView) -> Option<Move> {
    if v.waste.len() > 0 && can_promote_spec(v, v.waste.last()) {
        Some(
            Move {
                from: CardPosition::Waste,
                to: CardPosition::Foundation(suit_of(v.waste.last())),
            },
        )
    } else {
        None
    }
}

/// The move of the waste's top card to tableau `i`, if the rules allow it.
pub open spec fn w2t_move_spec(v: GameView, i: int) -> Option<Move> {
    if v.waste.len() > 0 {
        let c = v.waste.last();
        let t = v.tableaus[i];
        if t.len() > 0 {
            if fits_on_spec(t.last(), c) {
                Some(
                    Move {
                        from: CardPosition::Waste,
                        to: CardPosition::Tableau(i as u8, t.len() as u8),
                    },
                )
            } else {
                None
            }
        } else if king_of(c) {
            Some(Move { from: CardPosition::Waste, to: CardPosition::Tableau(i as u8, 0u8) })
        } else {
            None
        }
    } else {
        None
    }
}

/// The promotion of tableau `i`'s top card, if it is foundation-ready.
pub open spec fn t2f_move_spec(v: GameView, i: int) -> Option<Move> {
    let t = v.tableaus[i];
    if t.len() > 0 && can_promote_spec(v, t.last()) {
        Some(
            Move {
                from: CardPosition::Tableau(i as u8, (t.len() - 1) as u8),
                to: CardPosition::Foundation(suit_of(t.last())),
            },
        )
    } else {
        None
    }
}

/// The move of tableau `i`'s run from card `k` onto tableau `j`, if the
/// target accepts it.
pub open spec fn t2t_move_spec(v: GameView, i: int, k: int, j: int) -> Option<Move> {
    let c = v.tableaus[i][k];
    let t_to = v.tableaus[j];
    if t_to.len() > 0 {
        if fits_on_spec(t_to.last(), c) {
            Some(
                Move {
                    from: CardPosition::Tableau(i as u8, k as u8),
                    to: CardPosition::Tableau(j as u8, t_to.len() as u8),
                },
            )
        } else {
            None
        }
    } else if king_of(c) {
        Some(
            Move {
                from: CardPosition::Tableau(i as u8, k as u8),
                to: CardPosition::Tableau(j as u8, 0u8),
            },
        )
    } else {
        None
    }
}

/// The pruning rule for splitting a run between tableaus: the whole
/// unlocked run may always move; a proper sub-run moves only when the
/// card it uncovers can go straight to a foundation.
pub open spec fn t2t_start_ok(v: GameView, i: int, k: int) -> bool {
    &&& v.first_unlocked[i] != sentinel()
    &&& (k == v.first_unlocked[i] as int || ((v.first_unlocked[i] as int) < k && k
        < v.tableaus[i].len() && can_promote_spec(v, v.tableaus[i][k - 1])))
}

/// A tableau-to-tableau move the generator emits from source `i`.
pub open spec fn t2t_emitted_from(v: GameView, i: int, m: Move) -> bool {
    exists|k: int, j: int|
        {
            &&& 0 <= j < 7
            &&& i != j
            &&& t2t_start_ok(v, i, k)
            &&& #[trigger] t2t_move_spec(v, i, k, j) == Some(m)
        }
}

/// Everything the generator emits from state `v`.
pub open spec fn emitted(v: GameView, m: Move) -> bool {
    ||| stock_move_spec(v) == Some(m)
    ||| w2f_move_spec(v) == Some(m)
    ||| exists|i: int| 0 <= i < 7 && #[trigger] w2t_move_spec(v, i) == Some(m)
    ||| exists|i: int| 0 <= i < 7 && #[trigger] t2f_move_spec(v, i) == Some(m)
    ||| exists|i: int| 0 <= i < 7 && #[trigger] t2t_emitted_from(v, i, m)
}

impl Game {
    /// The one move the stock side offers, if any: draw, else restock.
    pub fn get_move_from_stock(&self) -> (r: Option<Move>)
        ensures
            r == stock_move_spec(self@),
    {
        if !self.stock.is_empty() {
            Some(Move { from: CardPosition::Stock, to: CardPosition::Waste })
        } else if !self.waste.is_empty() {
            Some(Move { from: CardPosition::Waste, to: CardPosition::Stock })
        } else {
            None
        }
    }

    /// The move of the waste's top card to one tableau, if legal there.
    pub fn get_move_from_waste_to_tableau(&self, tableau_idx: usize) -> (r: Option<Move>)
        requires
            wf(self@),
            tableau_idx < 7,
        ensures
            r == w2t_move_spec(self@, tableau_idx as int),
    {
        if let Some(card) = self.waste.last() {
            if let Some(tableau_card) = self.tableaus[tableau_idx].last() {
                if can_be_placed_on_top_of(tableau_card, card) {
                    Some(
                        Move {
                            from: CardPosition::Waste,
                            to: CardPosition::Tableau(
                                tableau_idx as u8,
                                self.tableaus[tableau_idx].len() as u8,
                            ),
                        },
                    )
                } else {
                    None
                }
            } else if is_king(card) {
                Some(
                    Move {
                        from: CardPosition::Waste,
                        to: CardPosition::Tableau(tableau_idx as u8, 0u8),
                    },
                )
            } else {
                None
            }
        } else {
            None
        }
    }

    /// All moves that take the waste's top card: its promotion and its
    /// placements on tableaus.
    pub fn get_moves_from_waste(&self) -> (r: Vec<Move>)
        requires
            wf(self@),
        ensures
            forall|m: Move|
                #[trigger] r@.contains(m) <==> (w2f_move_spec(self@) == Some(m) || exists|i: int|
                    0 <= i < 7 && #[trigger] w2t_move_spec(self@, i) == Some(m)),
    {
        broadcast use lemma_seq_contains_after_push;

        let mut set: Vec<Move> = Vec::new();
        if !self.waste.is_empty() {
            let n = self.waste.len();
            let card = self.waste.at(n - 1);
            if self.can_move_card_to_foundation(card) {
                set.push(
                    Move { from: CardPosition::Waste, to: CardPosition::Foundation(suit_rank(card)) },
                );
            }
            let mut tableau_idx: usize = 0;
            while tableau_idx < 7
                invariant
                    wf(self@),
                    tableau_idx <= 7,
                    forall|m: Move|
                        #[trigger] set@.contains(m) <==> (w2f_move_spec(self@) == Some(m)
                            || exists|i: int|
                            0 <= i < tableau_idx && #[trigger] w2t_move_spec(self@, i) == Some(m)),
                decreases 7 - tableau_idx,
            {
                broadcast use lemma_seq_contains_after_push;

                if let Some(mv) = self.get_move_from_waste_to_tableau(tableau_idx) {
                    set.push(mv);
                }
                tableau_idx += 1;
            }
        } else {
            proof {
                assert(forall|i: int| 0 <= i < 7 ==> #[trigger] w2t_move_spec(self@, i) is None);
            }
        }
        set
    }

    /// The move of the run of tableau `from_tableau_idx` starting at
    /// `card_idx` onto tableau `to_tableau_idx`, if the target accepts it.
    pub fn get_specific_move_between_tableaus(
        &self,
        from_tableau_idx: usize,
        card_idx: usize,
        to_tableau_idx: usize,
    ) -> (r: Option<Move>)
        requires
            wf(self@),
            from_tableau_idx < 7,
            to_tableau_idx < 7,
            card_idx < self@.tableaus[from_tableau_idx as int].len(),
        ensures
            r == t2t_move_spec(
                self@,
                from_tableau_idx as int,
                card_idx as int,
                to_tableau_idx as int,
            ),
    {
        let card = self.tableaus[from_tableau_idx].at(card_idx);
        if let Some(to_tableau_card) = self.tableaus[to_tableau_idx].last() {
            if can_be_placed_on_top_of(to_tableau_card, card) {
                Some(
                    Move {
                        from: CardPosition::Tableau(from_tableau_idx as u8, card_idx as u8),
                        to: CardPosition::Tableau(
                            to_tableau_idx as u8,
                            self.tableaus[to_tableau_idx].len() as u8,
                        ),
                    },
                )
            } else {
                None
            }
        } else if is_king(card) {
            Some(
                Move {
                    from: CardPosition::Tableau(from_tableau_idx as u8, card_idx as u8),
                    to: CardPosition::Tableau(to_tableau_idx as u8, 0u8),
                },
            )
        } else {
            None
        }
    }

    /// The promotion of one tableau's top card, if it is foundation-ready.
    pub fn get_move_from_tableau_to_foundation(&self, from_tableau_idx: usize) -> (r: Option<
        Move,
    >)
        requires
            wf(self@),
            from_tableau_idx < 7,
        ensures
            r == t2f_move_spec(self@, from_tableau_idx as int),
    {
        if let Some(from_tableau_card) = self.tableaus[from_tableau_idx].last() {
            if self.can_move_card_to_foundation(from_tableau_card) {
                Some(
                    Move {
                        from: CardPosition::Tableau(
                            from_tableau_idx as u8,
                            (self.tableaus[from_tableau_idx].len() - 1) as u8,
                        ),
                        to: CardPosition::Foundation(suit_rank(from_tableau_card)),
                    },
                )
            } else {
                None
            }
        } else {
            None
        }
    }
}

} // verus!

verus! {

/// Whether a move list holds the given move.
fn move_list_contains(v: &Vec<Move>, m: &Move) -> (r: bool)
    ensures
        r == v@.contains(*m),
{
    let mut i: usize = 0;
    while i < v.len()
        invariant
            i <= v@.len(),
            forall|w: int| 0 <= w < i ==> v@[w] != *m,
        decreases v@.len() - i,
    {
        if v[i] == *m {
            return true;
        }
        i += 1;
    }
    proof {
        assert(!v@.contains(*m));
    }
    false
}

/// Append every move of `src` to `dst`: afterwards `dst` holds a move
/// exactly when one of the two held it.
fn append_moves(dst: &mut Vec<Move>, src: &Vec<Move>)
    ensures
        forall|m: Move|
            #[trigger] final(dst)@.contains(m) <==> (old(dst)@.contains(m) || src@.contains(m)),
{
    broadcast use lemma_seq_contains_after_push;

    let mut i: usize = 0;
    while i < src.len()
        invariant
            i <= src@.len(),
            forall|m: Move|
                #[trigger] dst@.contains(m) <==> (old(dst)@.contains(m) || src@.subrange(
                    0,
                    i as int,
                ).contains(m)),
        decreases src@.len() - i,
    {
        broadcast use lemma_seq_contains_after_push;

        dst.push(src[i]);
        proof {
            assert(src@.subrange(0, i + 1) =~= src@.subrange(0, i as int).push(src@[i as int]));
        }
        i += 1;
    }
    proof {
        assert(src@.subrange(0, src@.len() as int) =~= src@);
    }
}

impl Game {
    /// All emitted moves out of tableau `from_tableau_idx` into other
    /// tableaus: the whole unlocked run to every other column, and a
    /// mid-run split only where it uncovers a foundation-ready card.
    #[verifier::rlimit(60)]
    pub fn get_tableau_moves_from_tableau(&self, from_tableau_idx: usize) -> (r: Vec<Move>)
        requires
            wf(self@),
            from_tableau_idx < 7,
        ensures
            forall|m: Move|
                #[trigger] r@.contains(m) <==> t2t_emitted_from(self@, from_tableau_idx as int, m),
    {
        broadcast use lemma_seq_contains_after_push;

        let fi = from_tableau_idx;
        let ghost v = self@;
        let ghost t = self@.tableaus[fi as int];
        let mut set: Vec<Move> = Vec::new();
        let first_unlocked = self.first_unlocked_idx[fi];
        if first_unlocked != u8::MAX {
            proof {
                assert(t.len() > 0);
            }
            let fu = first_unlocked as usize;
            let mut j: usize = 0;
            while j < 7
                invariant
                    wf(v),
                    v == self@,
                    t == v.tableaus[fi as int],
                    fi < 7,
                    t.len() > 0,
                    fu == v.first_unlocked[fi as int],
                    fu < t.len(),
                    j <= 7,
                    forall|m: Move|
                        #[trigger] set@.contains(m) <==> exists|j2: int|
                            0 <= j2 < j && j2 != fi && #[trigger] t2t_move_spec(
                                v,
                                fi as int,
                                fu as int,
                                j2,
                            ) == Some(m),
                decreases 7 - j,
            {
                broadcast use lemma_seq_contains_after_push;

                if j != fi {
                    if let Some(mv) = self.get_specific_move_between_tableaus(fi, fu, j) {
                        set.push(mv);
                    }
                }
                j += 1;
            }
            let len = self.tableaus[fi].len();
            let mut k: usize = fu + 1;
            while k < len
                invariant
                    wf(v),
                    v == self@,
                    t == v.tableaus[fi as int],
                    fi < 7,
                    t.len() > 0,
                    len == t.len(),
                    fu == v.first_unlocked[fi as int],
                    fu < t.len(),
                    fu < k <= len || (fu + 1 > len && k == fu + 1),
                    forall|m: Move|
                        #[trigger] set@.contains(m) <==> exists|k2: int, j2: int|
                            0 <= j2 < 7 && j2 != fi && (k2 == fu as int || (fu < k2 && k2 < k
                                && can_promote_spec(v, t[k2 - 1]))) && #[trigger] t2t_move_spec(
                                v,
                                fi as int,
                                k2,
                                j2,
                            ) == Some(m),
                decreases len - k,
            {
                if self.can_move_card_to_foundation(self.tableaus[fi].at(k - 1)) {
                    let mut j: usize = 0;
                    while j < 7
                        invariant
                            wf(v),
                            v == self@,
                            t == v.tableaus[fi as int],
                            fi < 7,
                            t.len() > 0,
                            len == t.len(),
                            fu == v.first_unlocked[fi as int],
                            fu < t.len(),
                            fu < k < len,
                            can_promote_spec(v, t[k - 1]),
                            j <= 7,
                            forall|m: Move|
                                #[trigger] set@.contains(m) <==> exists|k2: int, j2: int|
                                    0 <= j2 < 7 && j2 != fi && (k2 == fu as int || (fu < k2 && (k2
                                        < k || (k2 == k && j2 < j)) && can_promote_spec(
                                        v,
                                        t[k2 - 1],
                                    ))) && #[trigger] t2t_move_spec(v, fi as int, k2, j2) == Some(
                                        m,
                                    ),
                        decreases 7 - j,
                    {
                        broadcast use lemma_seq_contains_after_push;

                        if j != fi {
                            if let Some(mv) = self.get_specific_move_between_tableaus(fi, k, j) {
                                set.push(mv);
                            }
                        }
                        j += 1;
                    }
                }
                k += 1;
            }
        } else {
            proof {
                crate::mutate::lemma_wf_lens(v);
                assert(t.len() == 0);
            }
        }
        proof {
            assert forall|m: Move| #[trigger] set@.contains(m) <==> t2t_emitted_from(
                v,
                fi as int,
                m,
            ) by {
                if t2t_emitted_from(v, fi as int, m) {
                    let (k2, j2) = choose|k2: int, j2: int|
                        {
                            &&& 0 <= j2 < 7
                            &&& fi != j2
                            &&& t2t_start_ok(v, fi as int, k2)
                            &&& #[trigger] t2t_move_spec(v, fi as int, k2, j2) == Some(m)
                        };
                    assert(v.first_unlocked[fi as int] != sentinel());
                    assert(t.len() > 0);
                }
            }
        }
        set
    }

    /// All emitted moves whose source is a tableau: promotions of tops and
    /// tableau-to-tableau runs.
    pub fn get_moves_from_tableau(&self) -> (r: Vec<Move>)
        requires
            wf(self@),
        ensures
            forall|m: Move|
                #[trigger] r@.contains(m) <==> ((exists|i: int|
                    0 <= i < 7 && #[trigger] t2f_move_spec(self@, i) == Some(m)) || exists|i: int|
                    0 <= i < 7 && #[trigger] t2t_emitted_from(self@, i, m)),
    {
        broadcast use lemma_seq_contains_after_push;

        let mut set: Vec<Move> = Vec::new();
        let mut i: usize = 0;
        while i < 7
            invariant
                wf(self@),
                i <= 7,
                forall|m: Move|
                    #[trigger] set@.contains(m) <==> ((exists|i2: int|
                        0 <= i2 < i && #[trigger] t2f_move_spec(self@, i2) == Some(m)) || exists|
                        i2: int,
                    |
                        0 <= i2 < i && #[trigger] t2t_emitted_from(self@, i2, m)),
            decreases 7 - i,
        {
            broadcast use lemma_seq_contains_after_push;

            if let Some(mv) = self.get_move_from_tableau_to_foundation(i) {
                set.push(mv);
            }
            let from_this = self.get_tableau_moves_from_tableau(i);
            append_moves(&mut set, &from_this);
            i += 1;
        }
        set
    }

    /// Every move the generator emits from this state, each exactly once.
    pub fn valid_moves(&self) -> (r: Vec<Move>)
        requires
            wf(self@),
        ensures
            forall|m: Move| #[trigger] r@.contains(m) <==> emitted(self@, m),
            r@.no_duplicates(),
    {
        broadcast use lemma_seq_contains_after_push;

        let mut gathered = self.get_moves_from_waste();
        let from_tableaus = self.get_moves_from_tableau();
        append_moves(&mut gathered, &from_tableaus);
        if let Some(mv) = self.get_move_from_stock() {
            gathered.push(mv);
        }
        // keep each move once, as a set of moves would
        let mut valid_moves: Vec<Move> = Vec::new();
        let mut i: usize = 0;
        while i < gathered.len()
            invariant
                i <= gathered@.len(),
                forall|m: Move|
                    #[trigger] valid_moves@.contains(m) <==> gathered@.subrange(
                        0,
                        i as int,
                    ).contains(m),
                valid_moves@.no_duplicates(),
            decreases gathered@.len() - i,
        {
            broadcast use lemma_seq_contains_after_push;

            let mv = gathered[i];
            if !move_list_contains(&valid_moves, &mv) {
                proof {
                    assert(forall|w: int|
                        0 <= w < valid_moves@.len() ==> valid_moves@[w] != mv);
                    assert(valid_moves@.push(mv).no_duplicates()) by {
                        let p = valid_moves@.push(mv);
                        assert(forall|w: int|
                            0 <= w < valid_moves@.len() ==> #[trigger] p[w] == valid_moves@[w]);
                        assert(p[valid_moves@.len() as int] == mv);
                    }
                }
                valid_moves.push(mv);
            }
            proof {
                assert(gathered@.subrange(0, i + 1) =~= gathered@.subrange(0, i as int).push(
                    gathered@[i as int],
                ));
            }
            i += 1;
        }
        proof {
            assert(gathered@.subrange(0, gathered@.len() as int) =~= gathered@);
        }
        valid_moves
    }
}

} // verus!

verus! {

/// Every move the generator emits applies to the state it was emitted
/// from: the search may hand it straight to the mutators.
#[verifier::rlimit(60)]
#[verifier::spinoff_prover]
pub proof fn lemma_emitted_legal(v: GameView, m: Move)
    requires
        wf(v),
        emitted(v, m),
    ensures
        crate::mutate::legal_spec(v, m),
{
    crate::mutate::lemma_wf_lens(v);
    if stock_move_spec(v) == Some(m) {
    } else if w2f_move_spec(v) == Some(m) {
    } else if exists|i: int| 0 <= i < 7 && #[trigger] w2t_move_spec(v, i) == Some(m) {
        let i = choose|i: int| 0 <= i < 7 && #[trigger] w2t_move_spec(v, i) == Some(m);
        assert(i as u8 as int == i);
    } else if exists|i: int| 0 <= i < 7 && #[trigger] t2f_move_spec(v, i) == Some(m) {
        let i = choose|i: int| 0 <= i < 7 && #[trigger] t2f_move_spec(v, i) == Some(m);
        assert(i as u8 as int == i);
    } else {
        let i = choose|i: int| 0 <= i < 7 && #[trigger] t2t_emitted_from(v, i, m);
        let (k, j) = choose|k: int, j: int|
            {
                &&& 0 <= j < 7
                &&& i != j
                &&& t2t_start_ok(v, i, k)
                &&& #[trigger] t2t_move_spec(v, i, k, j) == Some(m)
            };
        assert(v.tableaus[i].len() > 0) by {
            assert(tableau_ok(v.tableaus[i], v.first_unlocked[i as int]));
        }
        assert(v.tableaus[i].len() <= 52);
        assert(0 <= k < v.tableaus[i].len()) by {
            assert(tableau_ok(v.tableaus[i], v.first_unlocked[i as int]));
        }
        assert(i as u8 as int == i && j as u8 as int == j && k as u8 as int == k);
    }
}

} // verus!
