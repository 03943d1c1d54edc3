//! Statements of the rules the library is held to, proved once and for
//! all over the model. The encoder's laws (a fingerprint is 56 bytes with
//! its delimiters set, is blind to the order of the tableau columns in
//! memory, and sorting them twice changes nothing) stand beside the
//! encoder itself; the card law that nothing can be laid on an Ace stands
//! beside the card codec.
use vstd::prelude::*;
use vstd::multiset::Multiset;
use vstd::set_lib::{set_int_range, lemma_int_range};
use vstd::seq_lib::group_to_multiset_ensures;
use crate::card::{NO_CARD, up_of, rank_of, suit_of, red_of, king_of, real_card};
use crate::game::{
    GameView, wf, tableau_ok, found_rank, bit64, cards_of, full_deck, can_promote_spec,
};
use crate::moves::{
    Move, CardPosition, emitted, w2t_move_spec, t2t_move_spec, t2t_start_ok, t2t_emitted_from,
    stock_move_spec, w2f_move_spec, t2f_move_spec,
};
use crate::mutate::{restock_spec, draw_spec, apply_spec, legal_spec, lemma_wf_lens, lemma_apply_wf};
use crate::solver::{replay_spec, replay_legal, lemma_replay_wf};
use crate::encode::{encode_spec, encode_body, lemma_fingerprint_wf};

verus! {

/// Every well-formed state spreads the 52 card indices over its
/// containers exactly once. Each mutator's contract returns a well-formed
/// successor, so this holds of every reachable state.
pub proof fn lemma_full_deck_partition(v: GameView)
    requires
        wf(v),
    ensures
        cards_of(v) == full_deck(),
        cards_of(v).len() == 52,
        forall|j: int| 0 <= j < 52 ==> #[trigger] cards_of(v).count(j as u8) == 1,
{
    broadcast use group_to_multiset_ensures;
    broadcast use vstd::multiset::group_multiset_axioms;

    let fd = Seq::new(52, |i: int| i as u8);
    assert(fd.no_duplicates()) by {
        assert(forall|i: int, j: int|
            0 <= i < 52 && 0 <= j < 52 && i != j ==> #[trigger] fd[i] != #[trigger] fd[j]);
    }
    fd.lemma_multiset_has_no_duplicates();
    assert forall|j: int| 0 <= j < 52 implies #[trigger] cards_of(v).count(j as u8) == 1 by {
        assert(fd[j] == j as u8);
        assert(fd.contains(j as u8));
        assert(fd.to_multiset().contains(j as u8));
    }
}

/// Every state a legal move sequence reaches from a well-formed state
/// again spreads the 52 card indices over its containers exactly once.
pub proof fn lemma_reachable_full_deck(v: GameView, moves: Seq<Move>, n: int)
    requires
        wf(v),
        0 <= n <= moves.len(),
        replay_legal(v, moves, n),
    ensures
        wf(replay_spec(v, moves, n)),
        cards_of(replay_spec(v, moves, n)) == full_deck(),
{
    lemma_replay_wf(v, moves, n);
}

/// Applying any legal move yields a state whose fingerprint is
/// well-formed: exactly 56 bytes with the four container delimiters set.
pub proof fn lemma_successor_fingerprint_wf(v: GameView, m: Move)
    requires
        wf(v),
        legal_spec(v, m),
    ensures
        encode_spec(apply_spec(v, m)).len() == 56,
        encode_spec(apply_spec(v, m))[3] >= 128,
        encode_spec(apply_spec(v, m))[3 + apply_spec(v, m).stock.len() as int] >= 128,
        encode_spec(apply_spec(v, m))[3 + apply_spec(v, m).stock.len() as int + apply_spec(
            v,
            m,
        ).waste.len() as int] >= 128,
        encode_spec(apply_spec(v, m))[encode_body(apply_spec(v, m)).len() as int - 1] >= 128,
{
    lemma_apply_wf(v, m);
    lemma_fingerprint_wf(apply_spec(v, m));
}

/// In every well-formed state, the suffix of a tableau from its first
/// unlocked index is strictly descending by rank with alternating colors,
/// every card of it face up, and every card below it face down.
pub proof fn lemma_unlocked_run(v: GameView, t: int)
    requires
        wf(v),
        0 <= t < 7,
        v.tableaus[t].len() > 0,
    ensures
        v.first_unlocked[t] < v.tableaus[t].len(),
        forall|j: int|
            v.first_unlocked[t] <= j < v.tableaus[t].len() ==> up_of(#[trigger] v.tableaus[t][j]),
        forall|j: int|
            v.first_unlocked[t] <= j < v.tableaus[t].len() - 1 ==> rank_of(
                #[trigger] v.tableaus[t][j],
            ) == rank_of(v.tableaus[t][j + 1]) + 1 && red_of(v.tableaus[t][j]) != red_of(
                v.tableaus[t][j + 1],
            ),
        forall|j: int| 0 <= j < v.first_unlocked[t] ==> !up_of(#[trigger] v.tableaus[t][j]),
{
    assert(tableau_ok(v.tableaus[t], v.first_unlocked[t]));
}

/// The rank a foundation slot shows equals the number of cards of its
/// suit the foundations ever swallowed, as the bitmask records them.
pub proof fn lemma_foundation_rank_counts(v: GameView, s: int)
    requires
        wf(v),
        0 <= s < 4,
    ensures
        found_rank(v, s) == Set::new(
            |j: int| 0 <= j < 52 && j / 13 == s && bit64(v.foundation_stack, j),
        ).len(),
{
    lemma_wf_lens(v);
    let r = found_rank(v, s);
    let promoted = Set::new(|j: int| 0 <= j < 52 && j / 13 == s && bit64(v.foundation_stack, j));
    assert(promoted =~= set_int_range(13 * s, 13 * s + r)) by {
        assert forall|j: int| promoted.contains(j) <==> set_int_range(
            13 * s,
            13 * s + r,
        ).contains(j) by {
            if 0 <= j < 52 {
                assert(bit64(v.foundation_stack, j) <==> (j % 13 + 1 <= found_rank(v, j / 13)));
                assert(j == 13 * (j / 13) + j % 13);
            } else {
                assert(!(13 * s <= j < 13 * s + r));
            }
        }
    }
    lemma_int_range(13 * s, 13 * s + r);
}

/// Turning the waste back into the stock and drawing it all again
/// restores the waste exactly: the two reversals cancel out.
pub proof fn lemma_restock_draw_all_round_trip(v: GameView)
    requires
        v.stock.len() == 0,
    ensures
        ({
            let back = draw_spec(restock_spec(v), v.waste.len() as int);
            &&& back.stock == v.stock
            &&& back.waste == v.waste
            &&& back.tableaus == v.tableaus
            &&& back.foundations == v.foundations
            &&& back.foundation_stack == v.foundation_stack
        }),
{
    let r = restock_spec(v);
    let n = v.waste.len() as int;
    let back = draw_spec(r, n);
    assert(r.stock == v.waste.reverse());
    assert(back.stock =~= v.stock);
    assert(r.stock.subrange(0, n) =~= r.stock);
    assert(v.waste.reverse().reverse() =~= v.waste);
    assert(back.waste =~= v.waste);
}

/// An empty tableau accepts a King and nothing else, whether the card
/// comes from the waste or from another tableau.
pub proof fn lemma_empty_tableau_takes_kings_only(v: GameView, m: Move, ti: u8, ci: u8)
    requires
        wf(v),
        emitted(v, m),
        m.to == CardPosition::Tableau(ti, ci),
        ti < 7,
        v.tableaus[ti as int].len() == 0,
    ensures
        match m.from {
            CardPosition::Waste => v.waste.len() > 0 && king_of(v.waste.last()),
            CardPosition::Tableau(fi, k) => fi < 7 && k < v.tableaus[fi as int].len() && king_of(
                v.tableaus[fi as int][k as int],
            ),
            _ => false,
        },
{
    lemma_wf_lens(v);
    if exists|i: int| 0 <= i < 7 && #[trigger] w2t_move_spec(v, i) == Some(m) {
        let i = choose|i: int| 0 <= i < 7 && #[trigger] w2t_move_spec(v, i) == Some(m);
        assert(i as u8 == ti);
    } else if exists|i: int| 0 <= i < 7 && #[trigger] t2t_emitted_from(v, i, m) {
        let i = choose|i: int| 0 <= i < 7 && #[trigger] t2t_emitted_from(v, i, m);
        let (k, j) = choose|k: int, j: int|
            {
                &&& 0 <= j < 7
                &&& i != j
                &&& t2t_start_ok(v, i, k)
                &&& #[trigger] t2t_move_spec(v, i, k, j) == Some(m)
            };
        assert(tableau_ok(v.tableaus[i], v.first_unlocked[i as int]));
        assert(j as u8 == ti);
        assert(0 <= k < v.tableaus[i].len());
        assert(k as u8 as int == k);
    }
}

/// An empty foundation slot accepts an Ace and nothing else.
pub proof fn lemma_empty_foundation_takes_aces_only(v: GameView, c: u8)
    requires
        wf(v),
        real_card(c),
        v.foundations[suit_of(c) as int] == NO_CARD,
        can_promote_spec(v, c),
    ensures
        rank_of(c) == 1,
{
}

/// A run is split in the middle only when the split exposes a card that
/// can go straight to a foundation: every emitted tableau-to-tableau move
/// that does not take the whole unlocked run uncovers a promotion.
pub proof fn lemma_partial_split_exposes_promotion(v: GameView, m: Move, fi: u8, k: u8)
    requires
        wf(v),
        emitted(v, m),
        m.from == CardPosition::Tableau(fi, k),
        m.to matches CardPosition::Tableau(_, _),
        fi < 7,
        k as int != v.first_unlocked[fi as int] as int,
    ensures
        0 < k < v.tableaus[fi as int].len(),
        can_promote_spec(v, v.tableaus[fi as int][k as int - 1]),
{
    lemma_wf_lens(v);
    assert(stock_move_spec(v) != Some(m));
    assert(w2f_move_spec(v) != Some(m));
    assert(forall|i: int| 0 <= i < 7 ==> #[trigger] w2t_move_spec(v, i) != Some(m));
    assert(forall|i: int| 0 <= i < 7 ==> #[trigger] t2f_move_spec(v, i) != Some(m));
    let i = choose|i: int| 0 <= i < 7 && #[trigger] t2t_emitted_from(v, i, m);
    let (k2, j) = choose|k2: int, j: int|
        {
            &&& 0 <= j < 7
            &&& i != j
            &&& t2t_start_ok(v, i, k2)
            &&& #[trigger] t2t_move_spec(v, i, k2, j) == Some(m)
        };
    assert(tableau_ok(v.tableaus[i], v.first_unlocked[i as int]));
    assert(0 <= k2 < v.tableaus[i].len());
    assert(i as u8 == fi && k2 as u8 == k);
    assert(i == fi as int && k2 == k as int);
}

} // verus!
