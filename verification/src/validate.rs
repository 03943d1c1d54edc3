//! The validator: an executable cross-check that a state holds the whole
//! deck, by OR-ing one bit per card index over every container.
use vstd::prelude::*;
use vstd::multiset::Multiset;
use vstd::seq_lib::group_to_multiset_ensures;
use crate::card::{Card, IsCard, idx_of, rank_of, suit_of, card_rank};
use crate::stack::{CardStack, stack_seq};
use crate::game::{
    Game, GameView, wf, bit64, foundation_mask_ok, idx_seq, found_run, found_rank, tabs_cards,
    found_cards, cards_of, full_deck, pile_bytes_ok, tableau_bytes_ok,
};
use crate::mutate::{lemma_bit_or_one, lemma_wf_lens};

verus! {

/// The mask with all 52 card bits set.
pub open spec fn full_mask() -> u64 {
    0x000F_FFFF_FFFF_FFFFu64
}

/// The mask after OR-ing in one bit per byte of `s`, left to right.
pub open spec fn or_idx(acc: u64, s: Seq<u8>) -> u64
    decreases s.len(),
{
    if s.len() == 0 {
        acc
    } else {
        or_idx(acc | (1u64 << (idx_of(s[0]) as u64)), s.drop_first())
    }
}

/// The mask after the stock, the waste and the first `t` tableaus.
pub open spec fn or_idx_over(v: GameView, t: int) -> u64
    decreases t,
{
    if t <= 0 {
        or_idx(or_idx(0u64, v.stock), v.waste)
    } else {
        or_idx(or_idx_over(v, t - 1), v.tableaus[t - 1])
    }
}

/// The bitmask a whole state spreads over its containers, foundations
/// last.
pub open spec fn game_mask(v: GameView) -> u64 {
    or_idx_over(v, 7) | v.foundation_stack
}

/// Folding from the right: the last byte ORs its bit onto the rest.
proof fn lemma_or_idx_push(acc: u64, s: Seq<u8>, c: u8)
    ensures
        or_idx(acc, s.push(c)) == or_idx(acc, s) | (1u64 << (idx_of(c) as u64)),
    decreases s.len(),
{
    if s.len() == 0 {
        assert(s.push(c).drop_first() =~= Seq::<u8>::empty());
        assert(s.push(c)[0] == c);
        assert(or_idx(acc, s.push(c)) == or_idx(acc | (1u64 << (idx_of(c) as u64)), Seq::<
            u8,
        >::empty()));
        assert(or_idx(acc, s) == acc);
    } else {
        assert(s.push(c).drop_first() =~= s.drop_first().push(c));
        assert(s.push(c)[0] == s[0]);
        lemma_or_idx_push(acc | (1u64 << (idx_of(s[0]) as u64)), s.drop_first(), c);
        assert(or_idx(acc, s.push(c)) == or_idx(
            acc | (1u64 << (idx_of(s[0]) as u64)),
            s.drop_first().push(c),
        ));
        assert(or_idx(acc, s) == or_idx(acc | (1u64 << (idx_of(s[0]) as u64)), s.drop_first()));
    }
}

/// Which bits the fold sets: exactly the indices of the bytes it saw.
proof fn lemma_or_idx_bits(acc: u64, s: Seq<u8>, j: int)
    requires
        0 <= j < 64,
        forall|w: int| 0 <= w < s.len() ==> idx_of(#[trigger] s[w]) < 64,
    ensures
        bit64(or_idx(acc, s), j) <==> (bit64(acc, j) || exists|w: int|
            0 <= w < s.len() && idx_of(#[trigger] s[w]) == j),
    decreases s.len(),
{
    if s.len() > 0 {
        lemma_bit_or_one(acc, idx_of(s[0]) as u64, j as u64);
        lemma_or_idx_bits(acc | (1u64 << (idx_of(s[0]) as u64)), s.drop_first(), j);
        assert(forall|w: int|
            0 <= w < s.drop_first().len() ==> #[trigger] s.drop_first()[w] == s[w + 1]);
        if bit64(or_idx(acc, s), j) && !bit64(acc, j) && idx_of(s[0]) != j {
            let w = choose|w: int|
                0 <= w < s.drop_first().len() && idx_of(#[trigger] s.drop_first()[w]) == j;
            assert(idx_of(s[w + 1]) == j);
        }
        if exists|w: int| 0 <= w < s.len() && idx_of(#[trigger] s[w]) == j {
            let w = choose|w: int| 0 <= w < s.len() && idx_of(#[trigger] s[w]) == j;
            if w > 0 {
                assert(idx_of(s.drop_first()[w - 1]) == j);
            }
        }
    }
}

/// OR joins the bits of both masks.
proof fn lemma_bit_or(x: u64, y: u64, j: u64)
    requires
        j < 64,
    ensures
        bit64(x | y, j as int) == (bit64(x, j as int) || bit64(y, j as int)),
{
    assert((((x | y) >> j) & 1u64 == 1u64) == (((x >> j) & 1u64 == 1u64) || ((y >> j) & 1u64
        == 1u64))) by (bit_vector);
}

/// A mask whose low 52 bits are set and whose high bits are clear is the
/// full-deck mask: reading one bit at a time pins the value.
proof fn lemma_bits_give_full(m: u64)
    requires
        forall|j: u64|
            j < 64 ==> ((#[trigger] (m >> j)) & 1u64 == if j < 52 {
                1u64
            } else {
                0u64
            }),
    ensures
        m == full_mask(),
{
        assert((m >> 0u64) & 1u64 == 1u64);
        assert((m >> 1u64) & 1u64 == 1u64);
        assert((m >> 2u64) & 1u64 == 1u64);
        assert((m >> 3u64) & 1u64 == 1u64);
        assert((m >> 4u64) & 1u64 == 1u64);
        assert((m >> 5u64) & 1u64 == 1u64);
        assert((m >> 6u64) & 1u64 == 1u64);
        assert((m >> 7u64) & 1u64 == 1u64);
        assert((m >> 8u64) & 1u64 == 1u64);
        assert((m >> 9u64) & 1u64 == 1u64);
        assert((m >> 10u64) & 1u64 == 1u64);
        assert((m >> 11u64) & 1u64 == 1u64);
        assert((m >> 12u64) & 1u64 == 1u64);
        assert((m >> 13u64) & 1u64 == 1u64);
        assert((m >> 14u64) & 1u64 == 1u64);
        assert((m >> 15u64) & 1u64 == 1u64);
        assert((m >> 16u64) & 1u64 == 1u64);
        assert((m >> 17u64) & 1u64 == 1u64);
        assert((m >> 18u64) & 1u64 == 1u64);
        assert((m >> 19u64) & 1u64 == 1u64);
        assert((m >> 20u64) & 1u64 == 1u64);
        assert((m >> 21u64) & 1u64 == 1u64);
        assert((m >> 22u64) & 1u64 == 1u64);
        assert((m >> 23u64) & 1u64 == 1u64);
        assert((m >> 24u64) & 1u64 == 1u64);
        assert((m >> 25u64) & 1u64 == 1u64);
        assert((m >> 26u64) & 1u64 == 1u64);
        assert((m >> 27u64) & 1u64 == 1u64);
        assert((m >> 28u64) & 1u64 == 1u64);
        assert((m >> 29u64) & 1u64 == 1u64);
        assert((m >> 30u64) & 1u64 == 1u64);
        assert((m >> 31u64) & 1u64 == 1u64);
        assert((m >> 32u64) & 1u64 == 1u64);
        assert((m >> 33u64) & 1u64 == 1u64);
        assert((m >> 34u64) & 1u64 == 1u64);
        assert((m >> 35u64) & 1u64 == 1u64);
        assert((m >> 36u64) & 1u64 == 1u64);
        assert((m >> 37u64) & 1u64 == 1u64);
        assert((m >> 38u64) & 1u64 == 1u64);
        assert((m >> 39u64) & 1u64 == 1u64);
        assert((m >> 40u64) & 1u64 == 1u64);
        assert((m >> 41u64) & 1u64 == 1u64);
        assert((m >> 42u64) & 1u64 == 1u64);
        assert((m >> 43u64) & 1u64 == 1u64);
        assert((m >> 44u64) & 1u64 == 1u64);
        assert((m >> 45u64) & 1u64 == 1u64);
        assert((m >> 46u64) & 1u64 == 1u64);
        assert((m >> 47u64) & 1u64 == 1u64);
        assert((m >> 48u64) & 1u64 == 1u64);
        assert((m >> 49u64) & 1u64 == 1u64);
        assert((m >> 50u64) & 1u64 == 1u64);
        assert((m >> 51u64) & 1u64 == 1u64);
        assert((m >> 52u64) & 1u64 == 0u64);
        assert((m >> 53u64) & 1u64 == 0u64);
        assert((m >> 54u64) & 1u64 == 0u64);
        assert((m >> 55u64) & 1u64 == 0u64);
        assert((m >> 56u64) & 1u64 == 0u64);
        assert((m >> 57u64) & 1u64 == 0u64);
        assert((m >> 58u64) & 1u64 == 0u64);
        assert((m >> 59u64) & 1u64 == 0u64);
        assert((m >> 60u64) & 1u64 == 0u64);
        assert((m >> 61u64) & 1u64 == 0u64);
        assert((m >> 62u64) & 1u64 == 0u64);
        assert((m >> 63u64) & 1u64 == 0u64);
    assert(m == 0x000F_FFFF_FFFF_FFFFu64) by (bit_vector)
        requires
            (m >> 0u64) & 1u64 == 1u64,
            (m >> 1u64) & 1u64 == 1u64,
            (m >> 2u64) & 1u64 == 1u64,
            (m >> 3u64) & 1u64 == 1u64,
            (m >> 4u64) & 1u64 == 1u64,
            (m >> 5u64) & 1u64 == 1u64,
            (m >> 6u64) & 1u64 == 1u64,
            (m >> 7u64) & 1u64 == 1u64,
            (m >> 8u64) & 1u64 == 1u64,
            (m >> 9u64) & 1u64 == 1u64,
            (m >> 10u64) & 1u64 == 1u64,
            (m >> 11u64) & 1u64 == 1u64,
            (m >> 12u64) & 1u64 == 1u64,
            (m >> 13u64) & 1u64 == 1u64,
            (m >> 14u64) & 1u64 == 1u64,
            (m >> 15u64) & 1u64 == 1u64,
            (m >> 16u64) & 1u64 == 1u64,
            (m >> 17u64) & 1u64 == 1u64,
            (m >> 18u64) & 1u64 == 1u64,
            (m >> 19u64) & 1u64 == 1u64,
            (m >> 20u64) & 1u64 == 1u64,
            (m >> 21u64) & 1u64 == 1u64,
            (m >> 22u64) & 1u64 == 1u64,
            (m >> 23u64) & 1u64 == 1u64,
            (m >> 24u64) & 1u64 == 1u64,
            (m >> 25u64) & 1u64 == 1u64,
            (m >> 26u64) & 1u64 == 1u64,
            (m >> 27u64) & 1u64 == 1u64,
            (m >> 28u64) & 1u64 == 1u64,
            (m >> 29u64) & 1u64 == 1u64,
            (m >> 30u64) & 1u64 == 1u64,
            (m >> 31u64) & 1u64 == 1u64,
            (m >> 32u64) & 1u64 == 1u64,
            (m >> 33u64) & 1u64 == 1u64,
            (m >> 34u64) & 1u64 == 1u64,
            (m >> 35u64) & 1u64 == 1u64,
            (m >> 36u64) & 1u64 == 1u64,
            (m >> 37u64) & 1u64 == 1u64,
            (m >> 38u64) & 1u64 == 1u64,
            (m >> 39u64) & 1u64 == 1u64,
            (m >> 40u64) & 1u64 == 1u64,
            (m >> 41u64) & 1u64 == 1u64,
            (m >> 42u64) & 1u64 == 1u64,
            (m >> 43u64) & 1u64 == 1u64,
            (m >> 44u64) & 1u64 == 1u64,
            (m >> 45u64) & 1u64 == 1u64,
            (m >> 46u64) & 1u64 == 1u64,
            (m >> 47u64) & 1u64 == 1u64,
            (m >> 48u64) & 1u64 == 1u64,
            (m >> 49u64) & 1u64 == 1u64,
            (m >> 50u64) & 1u64 == 1u64,
            (m >> 51u64) & 1u64 == 1u64,
            (m >> 52u64) & 1u64 == 0u64,
            (m >> 53u64) & 1u64 == 0u64,
            (m >> 54u64) & 1u64 == 0u64,
            (m >> 55u64) & 1u64 == 0u64,
            (m >> 56u64) & 1u64 == 0u64,
            (m >> 57u64) & 1u64 == 0u64,
            (m >> 58u64) & 1u64 == 0u64,
            (m >> 59u64) & 1u64 == 0u64,
            (m >> 60u64) & 1u64 == 0u64,
            (m >> 61u64) & 1u64 == 0u64,
            (m >> 62u64) & 1u64 == 0u64,
            (m >> 63u64) & 1u64 == 0u64,
    ;
}

/// A byte sequence contains index `j` exactly when its index multiset
/// counts it.
proof fn lemma_idx_count_exists(s: Seq<u8>, j: int)
    requires
        0 <= j < 64,
    ensures
        idx_seq(s).to_multiset().count(j as u8) > 0 <==> exists|w: int|
            0 <= w < s.len() && idx_of(#[trigger] s[w]) == j,
{
    broadcast use group_to_multiset_ensures;

    if idx_seq(s).to_multiset().count(j as u8) > 0 {
        assert(idx_seq(s).contains(j as u8));
        let w = choose|w: int| 0 <= w < idx_seq(s).len() && idx_seq(s)[w] == j as u8;
        assert(idx_of(s[w]) == j);
    }
    if exists|w: int| 0 <= w < s.len() && idx_of(#[trigger] s[w]) == j {
        let w = choose|w: int| 0 <= w < s.len() && idx_of(#[trigger] s[w]) == j;
        assert(idx_seq(s)[w] == j as u8);
        assert(idx_seq(s).contains(j as u8));
    }
}

/// The validator's mask over a well-formed state is the full-deck mask:
/// every card index contributes its bit exactly where it stands.
#[verifier::rlimit(60)]
pub proof fn lemma_game_mask_full(v: GameView)
    requires
        wf(v),
    ensures
        game_mask(v) == full_mask(),
{
    broadcast use group_to_multiset_ensures;
    broadcast use vstd::multiset::group_multiset_axioms;

    let piles = or_idx_over(v, 7);
    assert forall|j: u64| j < 64 implies (#[trigger] bit64(game_mask(v), j as int) <==> j < 52) by {
        let ji = j as int;
        lemma_bit_or(piles, v.foundation_stack, j);
        assert(forall|w: int| 0 <= w < v.stock.len() ==> idx_of(#[trigger] v.stock[w]) < 64);
        assert(forall|w: int| 0 <= w < v.waste.len() ==> idx_of(#[trigger] v.waste[w]) < 64);
        assert(forall|t: int, w: int|
            0 <= t < 7 && 0 <= w < v.tableaus[t].len() ==> idx_of(
                #[trigger] v.tableaus[t][w],
            ) < 64);
        lemma_or_idx_bits(0u64, v.stock, ji);
        lemma_or_idx_bits(or_idx(0u64, v.stock), v.waste, ji);
        let a0 = or_idx_over(v, 0);
        let a1 = or_idx_over(v, 1);
        let a2 = or_idx_over(v, 2);
        let a3 = or_idx_over(v, 3);
        let a4 = or_idx_over(v, 4);
        let a5 = or_idx_over(v, 5);
        let a6 = or_idx_over(v, 6);
        assert(a0 == or_idx(or_idx(0u64, v.stock), v.waste));
        assert(a1 == or_idx(a0, v.tableaus[0]));
        assert(a2 == or_idx(a1, v.tableaus[1]));
        assert(a3 == or_idx(a2, v.tableaus[2]));
        assert(a4 == or_idx(a3, v.tableaus[3]));
        assert(a5 == or_idx(a4, v.tableaus[4]));
        assert(a6 == or_idx(a5, v.tableaus[5]));
        assert(piles == or_idx(a6, v.tableaus[6]));
        lemma_or_idx_bits(a0, v.tableaus[0], ji);
        lemma_or_idx_bits(a1, v.tableaus[1], ji);
        lemma_or_idx_bits(a2, v.tableaus[2], ji);
        lemma_or_idx_bits(a3, v.tableaus[3], ji);
        lemma_or_idx_bits(a4, v.tableaus[4], ji);
        lemma_or_idx_bits(a5, v.tableaus[5], ji);
        lemma_or_idx_bits(a6, v.tableaus[6], ji);
        assert(bit64(0u64, ji) == false) by {
            let jj = j;
            assert((0u64 >> jj) & 1u64 == 0u64) by (bit_vector);
        }
        lemma_idx_count_exists(v.stock, ji);
        lemma_idx_count_exists(v.waste, ji);
        assert forall|t: int| 0 <= t < 7 implies ((#[trigger] idx_seq(
            v.tableaus[t],
        ).to_multiset()).count(j as u8) > 0 <==> exists|w: int|
            0 <= w < v.tableaus[t].len() && idx_of(#[trigger] v.tableaus[t][w]) == ji) by {
            lemma_idx_count_exists(v.tableaus[t], ji);
        }
        // the foundation bitmask covers exactly the promoted runs
        assert forall|q: int| 0 <= q < 4 implies ((#[trigger] found_run(
            q,
            found_rank(v, q),
        ).to_multiset()).count(j as u8) > 0 <==> (j < 52 && ji / 13 == q && ji % 13 + 1
            <= found_rank(v, q))) by {
            if found_run(q, found_rank(v, q)).to_multiset().count(j as u8) > 0 {
                assert(found_run(q, found_rank(v, q)).contains(j as u8));
                let w = choose|w: int|
                    0 <= w < found_run(q, found_rank(v, q)).len() && found_run(
                        q,
                        found_rank(v, q),
                    )[w] == j as u8;
                assert(13 * q + w == ji);
            }
            if j < 52 && ji / 13 == q && ji % 13 + 1 <= found_rank(v, q) {
                let w = ji % 13;
                assert(13 * q + w == ji) by {
                    assert(ji == 13 * (ji / 13) + ji % 13);
                }
                assert(found_run(q, found_rank(v, q))[w] == j as u8);
                assert(found_run(q, found_rank(v, q)).contains(j as u8));
            }
        }
        if j < 52 {
            assert(full_deck().count(j as u8) > 0) by {
                let fd = Seq::new(52, |i: int| i as u8);
                assert(fd[ji] == j as u8);
                assert(fd.contains(j as u8));
            }
            assert(cards_of(v).count(j as u8) > 0);
        } else {
            assert(full_deck().count(j as u8) == 0) by {
                if full_deck().count(j as u8) > 0 {
                    let fd = Seq::new(52, |i: int| i as u8);
                    assert(fd.contains(j as u8));
                    let w = choose|w: int| 0 <= w < 52 && fd[w] == j as u8;
                    assert(w as u8 == j as u8);
                }
            }
            assert(cards_of(v).count(j as u8) == 0);
        }
    }
    let gm = game_mask(v);
    assert forall|j: u64| j < 64 implies ((#[trigger] (gm >> j)) & 1u64 == if j < 52 {
        1u64
    } else {
        0u64
    }) by {
        assert(bit64(gm, j as int) <==> j < 52);
        assert((gm >> j) & 1u64 == 0u64 || (gm >> j) & 1u64 == 1u64) by (bit_vector);
    }
    lemma_bits_give_full(gm);
}

impl Game {
    /// Compute the validator's mask: one bit per card index over stock,
    /// waste and tableaus, OR-ed with the foundation bitmask, and compare
    /// it with the full-deck mask. A well-formed state always passes
    /// (`lemma_game_mask_full`).
    pub fn validate(&self) -> (r: bool)
        requires
            self.tableaus@.len() == 7,
        ensures
            r == (game_mask(self@) == full_mask()),
            wf(self@) ==> r,
    {
        let full_game_stack = self.compute_mask();
        proof {
            if wf(self@) {
                lemma_game_mask_full(self@);
            }
        }
        full_game_stack == 0x000F_FFFF_FFFF_FFFFu64
    }

    /// The validator's mask, computed: one bit per card index over stock,
    /// waste and tableaus, OR-ed with the foundation bitmask.
    pub fn compute_mask(&self) -> (r: u64)
        requires
            self.tableaus@.len() == 7,
        ensures
            r == game_mask(self@),
    {
        let mut game_stack: u64 = 0;
        game_stack = or_stack(game_stack, &self.stock);
        game_stack = or_stack(game_stack, &self.waste);
        proof {
            assert(game_stack == or_idx_over(self@, 0));
        }
        let mut t: usize = 0;
        while t < 7
            invariant
                self.tableaus@.len() == 7,
                t <= 7,
                game_stack == or_idx_over(self@, t as int),
            decreases 7 - t,
        {
            game_stack = or_stack(game_stack, &self.tableaus[t]);
            t += 1;
        }
        game_stack | self.foundation_stack
    }

    /// Name a card the state is missing: the lowest card index whose bit
    /// the validator's mask leaves clear, if any. A well-formed state
    /// misses nothing.
    pub fn missing_card(&self) -> (r: Option<u8>)
        requires
            self.tableaus@.len() == 7,
        ensures
            match r {
                None => forall|j: int| 0 <= j < 52 ==> bit64(game_mask(self@), j),
                Some(j) => j < 52 && !bit64(game_mask(self@), j as int),
            },
            wf(self@) ==> r is None,
    {
        let mask = self.compute_mask();
        let mut j: u64 = 0;
        while j < 52
            invariant
                mask == game_mask(self@),
                j <= 52,
                forall|w: int| 0 <= w < j ==> bit64(game_mask(self@), w),
            decreases 52 - j,
        {
            if (mask >> j) & 1u64 == 0u64 {
                proof {
                    if wf(self@) {
                        lemma_game_mask_full(self@);
                        assert(bit64(full_mask(), j as int)) by {
                            let jj = j;
                            assert((0x000F_FFFF_FFFF_FFFFu64 >> jj) & 1u64 == 1u64)
                                by (bit_vector)
                                requires
                                    jj < 52,
                            ;
                        }
                    }
                }
                return Some(j as u8);
            }
            proof {
                let jj = j;
                assert((mask >> jj) & 1u64 == 0u64 || (mask >> jj) & 1u64 == 1u64)
                    by (bit_vector);
            }
            j += 1;
        }
        None
    }

    /// Count the cards in every container, the foundations by their
    /// reached rank: a well-formed state counts exactly the deck.
    pub fn is_valid_game_state(&self) -> (r: bool)
        requires
            wf(self@),
        ensures
            r,
    {
        is_valid_game_state(self)
    }
}

/// Count the cards in every container, the foundations by their reached
/// rank: a well-formed state counts exactly the 52 cards of the deck.
pub fn is_valid_game_state(game: &Game) -> (r: bool)
    requires
        wf(game@),
    ensures
        r,
{
    proof {
        lemma_wf_lens(game@);
    }
    let mut num_cards: usize = 0;
    num_cards += game.stock.len();
    num_cards += game.waste.len();
    let mut t: usize = 0;
    while t < 7
        invariant
            wf(game@),
            t <= 7,
            num_cards == game@.stock.len() + game@.waste.len() + partial_tab_len(
                game@,
                t as int,
            ),
            num_cards <= 52,
        decreases 7 - t,
    {
        proof {
            lemma_wf_lens(game@);
            lemma_partial_tab_len_bound(game@, t as int);
            lemma_partial_tab_len_bound(game@, t + 1);
        }
        num_cards += game.tableaus[t].len();
        t += 1;
    }
    let mut s: usize = 0;
    while s < 4
        invariant
            wf(game@),
            s <= 4,
            num_cards == game@.stock.len() + game@.waste.len() + partial_tab_len(game@, 7)
                + partial_found(game@, s as int),
            num_cards <= 52,
        decreases 4 - s,
    {
        proof {
            lemma_wf_lens(game@);
            lemma_partial_tab_len_bound(game@, 7);
            lemma_partial_found_bound(game@, s as int);
            lemma_partial_found_bound(game@, s + 1);
        }
        num_cards += card_rank(game.foundations[s]) as usize;
        s += 1;
    }
    proof {
        lemma_wf_lens(game@);
        lemma_partial_tab_len_bound(game@, 7);
        lemma_partial_found_bound(game@, 4);
    }
    num_cards == 52
}

/// The summed length of the first `t` tableaus.
pub open spec fn partial_tab_len(v: GameView, t: int) -> int
    decreases t,
{
    if t <= 0 {
        0
    } else {
        partial_tab_len(v, t - 1) + v.tableaus[t - 1].len()
    }
}

/// The summed rank of the first `s` foundation slots.
pub open spec fn partial_found(v: GameView, s: int) -> int
    decreases s,
{
    if s <= 0 {
        0
    } else {
        partial_found(v, s - 1) + found_rank(v, s - 1)
    }
}

/// Partial sums of lengths never go negative.
proof fn lemma_partial_tab_nonneg(v: GameView, t: int)
    requires
        0 <= t,
    ensures
        partial_tab_len(v, t) >= 0,
    decreases t,
{
    if t > 0 {
        lemma_partial_tab_nonneg(v, t - 1);
    }
}

/// The full tableau sum, unfolded, and how partial sums sit below it.
proof fn lemma_partial_tab_len_bound(v: GameView, t: int)
    requires
        0 <= t <= 7,
    ensures
        0 <= partial_tab_len(v, t) <= partial_tab_len(v, 7),
        partial_tab_len(v, 7) == v.tableaus[0].len() + v.tableaus[1].len() + v.tableaus[2].len()
            + v.tableaus[3].len() + v.tableaus[4].len() + v.tableaus[5].len()
            + v.tableaus[6].len(),
    decreases 7 - t,
{
    lemma_partial_tab_nonneg(v, t);
    if t < 7 {
        lemma_partial_tab_len_bound(v, t + 1);
    } else {
        assert(partial_tab_len(v, 0) == 0);
        assert(partial_tab_len(v, 1) == partial_tab_len(v, 0) + v.tableaus[0].len());
        assert(partial_tab_len(v, 2) == partial_tab_len(v, 1) + v.tableaus[1].len());
        assert(partial_tab_len(v, 3) == partial_tab_len(v, 2) + v.tableaus[2].len());
        assert(partial_tab_len(v, 4) == partial_tab_len(v, 3) + v.tableaus[3].len());
        assert(partial_tab_len(v, 5) == partial_tab_len(v, 4) + v.tableaus[4].len());
        assert(partial_tab_len(v, 6) == partial_tab_len(v, 5) + v.tableaus[5].len());
        assert(partial_tab_len(v, 7) == partial_tab_len(v, 6) + v.tableaus[6].len());
    }
}

/// Partial sums of foundation ranks never go negative.
proof fn lemma_partial_found_nonneg(v: GameView, s: int)
    requires
        0 <= s <= 4,
        v.foundations.len() == 4,
    ensures
        partial_found(v, s) >= 0,
    decreases s,
{
    if s > 0 {
        lemma_partial_found_nonneg(v, s - 1);
    }
}

/// The full foundation sum, unfolded, and how partial sums sit below it.
proof fn lemma_partial_found_bound(v: GameView, s: int)
    requires
        wf(v),
        0 <= s <= 4,
    ensures
        0 <= partial_found(v, s) <= partial_found(v, 4),
        partial_found(v, 4) == found_rank(v, 0) + found_rank(v, 1) + found_rank(v, 2)
            + found_rank(v, 3),
    decreases 4 - s,
{
    lemma_wf_lens(v);
    lemma_partial_found_nonneg(v, s);
    if s < 4 {
        lemma_partial_found_bound(v, s + 1);
    } else {
        assert(partial_found(v, 0) == 0);
        assert(partial_found(v, 1) == partial_found(v, 0) + found_rank(v, 0));
        assert(partial_found(v, 2) == partial_found(v, 1) + found_rank(v, 1));
        assert(partial_found(v, 3) == partial_found(v, 2) + found_rank(v, 2));
        assert(partial_found(v, 4) == partial_found(v, 3) + found_rank(v, 3));
    }
}

/// OR the bits of one stack's card indices onto the mask.
fn or_stack(acc: u64, st: &CardStack) -> (r: u64)
    ensures
        r == or_idx(acc, stack_seq(*st)),
{
    let n = st.len();
    let mut r = acc;
    let mut i: usize = 0;
    while i < n
        invariant
            n == stack_seq(*st).len(),
            i <= n,
            r == or_idx(acc, stack_seq(*st).take(i as int)),
        decreases n - i,
    {
        let c = st.at(i);
        proof {
            assert(c.card_idx() < 64);
            lemma_or_idx_push(acc, stack_seq(*st).take(i as int), c);
            assert(stack_seq(*st).take(i + 1) =~= stack_seq(*st).take(i as int).push(c));
        }
        r = r | (1u64 << (c.index() as u64));
        i += 1;
    }
    proof {
        assert(stack_seq(*st).take(n as int) =~= stack_seq(*st));
    }
    r
}

} // verus!
