//! Dealing a new game from a shuffled deck.
//!
//! The deal follows the classic pattern: in each round one card goes to
//! every column not yet full, so column `c` ends with `c + 1` cards, and
//! only the last card of each column lies face up. The 24 cards left over
//! form the stock. The deck itself comes from the rand crate, behind
//! trusted wrappers whose only promise is that shuffling permutes.
use vstd::prelude::*;
use vstd::multiset::Multiset;
use rand::Rng;
use rand::SeedableRng;
use rand::seq::SliceRandom;
use crate::card::{Card, IsCard, NO_CARD, idx_of, up_of, downturn_of, real_card};
use crate::stack::{CardStack, stack_seq};
use crate::game::{
    Game, GameView, wf, tableau_ok, tableau_bytes_ok, pile_bytes_ok, found_rank, bit64,
    foundation_mask_ok, foundations_ok, idx_seq, found_run, tabs_cards, found_cards, cards_of,
    full_deck, sentinel, fu_min_ok, lemma_fu_agrees,
};
use crate::mutate::{lemma_idx_concat, lemma_idx_push};

verus! {

/// How many cards were dealt before the card of row `r` reaches column
/// `c`: earlier rounds gave one card to each column from their own on.
pub open spec fn row_start(r: int) -> int {
    if r <= 0 {
        0
    } else if r == 1 {
        7
    } else if r == 2 {
        13
    } else if r == 3 {
        18
    } else if r == 4 {
        22
    } else if r == 5 {
        25
    } else if r == 6 {
        27
    } else {
        28
    }
}

/// How many cards were dealt before the card of row `r`, column `c`.
pub open spec fn deal_offset(r: int, c: int) -> int {
    row_start(r) + c - r
}

/// The byte dealt to row `r` of column `c`: cards come off the top of the
/// deck, face down below the last row of the column.
pub open spec fn dealt_byte(deck: Seq<u8>, r: int, c: int) -> u8 {
    if r == c {
        deck[51 - deal_offset(r, c)]
    } else {
        downturn_of(deck[51 - deal_offset(r, c)])
    }
}

/// The first `m` cards of column `c` of the deal.
pub open spec fn dealt_col(deck: Seq<u8>, c: int, m: int) -> Seq<u8> {
    Seq::new(m as nat, |r: int| dealt_byte(deck, r, c))
}

/// The offsets of the deal stay within the 28 dealt cards and advance by
/// one card at a time, row by row.
pub proof fn lemma_deal_offset_bounds(r: int, c: int)
    requires
        0 <= r < 7,
        r <= c <= 7,
    ensures
        0 <= deal_offset(r, c),
        c < 7 ==> deal_offset(r, c) <= 27,
        c <= 7 ==> deal_offset(r, c) <= 28,
        deal_offset(r, c + 1) == deal_offset(r, c) + 1,
        deal_offset(r, 7) == deal_offset(r + 1, r + 1),
        deal_offset(0, 0) == 0,
        deal_offset(7, 7) == 28,
{
}

/// Taking one more card off the deck's top grows the dealt suffix by that
/// card's index.
proof fn lemma_suffix_extend(s: Seq<u8>, a: int)
    requires
        0 <= a < s.len(),
    ensures
        idx_seq(s.subrange(a, s.len() as int)).to_multiset() == idx_seq(
            s.subrange(a + 1, s.len() as int),
        ).to_multiset().insert(idx_of(s[a])),
{
    broadcast use vstd::seq_lib::group_to_multiset_ensures;

    let n = s.len() as int;
    lemma_idx_concat(s.subrange(a, a + 1), s.subrange(a + 1, n));
    assert(s.subrange(a, n) =~= s.subrange(a, a + 1) + s.subrange(a + 1, n));
    assert(idx_seq(s.subrange(a, a + 1)) =~= Seq::<u8>::empty().push(idx_of(s[a])));
    assert(idx_seq(s.subrange(a, a + 1)).to_multiset() =~= Multiset::<u8>::empty().insert(
        idx_of(s[a]),
    ));
    assert(idx_seq(s.subrange(a, n)).to_multiset() =~= idx_seq(s.subrange(a + 1, n)).to_multiset()
        .insert(idx_of(s[a])));
}

/// Growing one column by one card grows the tableaus' multiset by its
/// index.
proof fn lemma_tabs_cards_insert(t: Seq<Seq<u8>>, c: int, x: Seq<u8>, e: u8)
    requires
        t.len() == 7,
        0 <= c < 7,
        idx_seq(x).to_multiset() == idx_seq(t[c]).to_multiset().insert(e),
    ensures
        tabs_cards(t.update(c, x)) == tabs_cards(t).insert(e),
{
    broadcast use vstd::multiset::group_multiset_axioms;

    assert(tabs_cards(t.update(c, x)) =~= tabs_cards(t).insert(e));
}

/// No bit of the zero mask is set.
proof fn lemma_zero_bits(j: u64)
    requires
        j < 64,
    ensures
        !bit64(0u64, j as int),
{
    assert((0u64 >> j) & 1u64 == 0u64) by (bit_vector);
}

impl Game {
    /// Deal a fresh game from a deck holding each of the 52 card indices
    /// once, the stock's top being the deck's last entry.
    #[verifier::rlimit(80)]
    #[verifier::spinoff_prover]
    pub fn new_with_deck(deck: &Vec<u8>) -> (g: Game)
        requires
            deck@.len() == 52,
            pile_bytes_ok(deck@),
            idx_seq(deck@).to_multiset() == full_deck(),
        ensures
            wf(g@),
            g@.stock == deck@.take(24),
            g@.waste == Seq::<u8>::empty(),
            forall|c: int| 0 <= c < 7 ==> g@.tableaus[c] == dealt_col(deck@, c, c + 1),
            g@.foundations =~= seq![NO_CARD, NO_CARD, NO_CARD, NO_CARD],
            g@.foundation_stack == 0,
            g@.prev_move is None,
    {
        let mut stock = CardStack::new();
        let mut i: usize = 0;
        while i < 24
            invariant
                deck@.len() == 52,
                i <= 24,
                stack_seq(stock) == deck@.take(i as int),
            decreases 24 - i,
        {
            stock.push(deck[i]);
            proof {
                assert(deck@.take(i + 1) =~= deck@.take(i as int).push(deck@[i as int]));
            }
            i += 1;
        }
        let mut tabs: Vec<CardStack> = Vec::new();
        let mut q: usize = 0;
        while q < 7
            invariant
                q <= 7,
                tabs@.len() == q,
                forall|w: int| 0 <= w < q ==> stack_seq(#[trigger] tabs@[w]) == Seq::<u8>::empty(),
            decreases 7 - q,
        {
            tabs.push(CardStack::new());
            q += 1;
        }
        let ghost tseq = Seq::new(7, |w: int| stack_seq(tabs@[w]));
        proof {
            broadcast use vstd::seq_lib::group_to_multiset_ensures;
            broadcast use vstd::multiset::group_multiset_axioms;
            broadcast use vstd::multiset::lemma_multiset_empty_len;

            assert(forall|w: int| 0 <= w < 7 ==> #[trigger] tseq[w] =~= dealt_col(deck@, w, 0));
            assert(tabs_cards(tseq) =~= idx_seq(deck@.subrange(52, 52)).to_multiset()) by {
                assert(idx_seq(deck@.subrange(52, 52)) =~= Seq::<u8>::empty());
                assert(forall|w: int| 0 <= w < 7 ==> #[trigger] tseq[w] == Seq::<u8>::empty());
                assert(idx_seq(Seq::<u8>::empty()) =~= Seq::<u8>::empty());
                assert(Seq::<u8>::empty().to_multiset().len() == 0);
            }
            lemma_deal_offset_bounds(0, 0);
        }
        let mut off: usize = 0;
        let mut r: usize = 0;
        while r < 7
            invariant
                deck@.len() == 52,
                pile_bytes_ok(deck@),
                r <= 7,
                r < 7 ==> off == deal_offset(r as int, r as int),
                r == 7 ==> off == 28,
                off <= 28,
                tabs@.len() == 7,
                forall|w: int|
                    0 <= w < 7 ==> stack_seq(#[trigger] tabs@[w]) == dealt_col(
                        deck@,
                        w,
                        if w < r {
                            w + 1
                        } else {
                            r as int
                        },
                    ),
                tabs_cards(Seq::new(7, |w: int| stack_seq(tabs@[w]))) == idx_seq(
                    deck@.subrange(52 - off, 52),
                ).to_multiset(),
            decreases 7 - r,
        {
            let mut c: usize = r;
            while c < 7
                invariant
                    deck@.len() == 52,
                    pile_bytes_ok(deck@),
                    r < 7,
                    r <= c <= 7,
                    off == deal_offset(r as int, c as int),
                    off <= 28,
                    c < 7 ==> off <= 27,
                    tabs@.len() == 7,
                    forall|w: int|
                        0 <= w < 7 ==> stack_seq(#[trigger] tabs@[w]) == dealt_col(
                            deck@,
                            w,
                            if w < r || w < c {
                                if w < r {
                                    w + 1
                                } else {
                                    r + 1
                                }
                            } else {
                                r as int
                            },
                        ),
                    tabs_cards(Seq::new(7, |w: int| stack_seq(tabs@[w]))) == idx_seq(
                        deck@.subrange(52 - off, 52),
                    ).to_multiset(),
                decreases 7 - c,
            {
                proof {
                    lemma_deal_offset_bounds(r as int, c as int);
                }
                let ghost told = Seq::new(7, |w: int| stack_seq(tabs@[w]));
                let card = deck[51 - off];
                let byte = if c == r {
                    card
                } else {
                    card.face_down()
                };
                tabs[c].push(byte);
                proof {
                    let tnew = Seq::new(7, |w: int| stack_seq(tabs@[w]));
                    assert(idx_of(byte) == idx_of(deck@[51 - off]));
                    assert(tnew[c as int] == told[c as int].push(byte));
                    assert(tnew =~= told.update(c as int, told[c as int].push(byte)));
                    lemma_idx_push(told[c as int], byte);
                    lemma_tabs_cards_insert(
                        told,
                        c as int,
                        told[c as int].push(byte),
                        idx_of(byte),
                    );
                    lemma_suffix_extend(deck@, 51 - off);
                    assert(idx_of(deck@[51 - off]) == deck@[51 - off]);
                    assert(tabs_cards(tnew) == idx_seq(
                        deck@.subrange(52 - (off + 1), 52),
                    ).to_multiset());
                    assert(told[c as int].push(byte) =~= dealt_col(deck@, c as int, r + 1)) by {
                        assert(told[c as int] == dealt_col(deck@, c as int, r as int));
                        assert(byte == dealt_byte(deck@, r as int, c as int));
                    }
                }
                off += 1;
                c += 1;
            }
            proof {
                lemma_deal_offset_bounds(r as int, 6);
                assert(off == deal_offset(r as int, 7));
                assert(deal_offset(r as int, 7) == deal_offset(r + 1, r + 1));
                if r == 6 {
                    assert(deal_offset(7, 7) == 28);
                }
            }
            r += 1;
        }
        let mut first_unlocked_idx: Vec<u8> = Vec::new();
        let mut foundations: Vec<u8> = Vec::new();
        let mut q: usize = 0;
        while q < 7
            invariant
                q <= 7,
                first_unlocked_idx@.len() == q,
            decreases 7 - q,
        {
            first_unlocked_idx.push(u8::MAX);
            q += 1;
        }
        let mut q: usize = 0;
        while q < 4
            invariant
                q <= 4,
                foundations@.len() == q,
                forall|w: int| 0 <= w < q ==> #[trigger] foundations@[w] == NO_CARD,
            decreases 4 - q,
        {
            foundations.push(u8::MAX);
            q += 1;
        }
        let mut g = Game {
            tableaus: tabs,
            first_unlocked_idx,
            foundations,
            foundation_stack: 0,
            stock,
            waste: CardStack::new(),
            prev_move: None,
        };
        proof {
            assert(forall|w: int|
                0 <= w < 7 ==> #[trigger] g@.tableaus[w] == dealt_col(deck@, w, w + 1));
            assert forall|w: int| 0 <= w < 7 implies tableau_bytes_ok(
                #[trigger] g@.tableaus[w],
            ) by {
                let t = g@.tableaus[w];
                assert forall|x: int| 0 <= x < t.len() implies real_card(#[trigger] t[x]) && t[x]
                    < 128 by {
                    assert(t[x] == dealt_byte(deck@, x, w));
                    lemma_deal_offset_bounds(x, w);
                    assert(deck@[51 - deal_offset(x, w)] < 52);
                }
            }
        }
        let ghost mid = g@;
        let mut q: usize = 0;
        while q < 7
            invariant
                q <= 7,
                g.tableaus@.len() == 7,
                g.first_unlocked_idx@.len() == 7,
                g@.tableaus == mid.tableaus,
                g@.foundations == mid.foundations,
                g@.foundation_stack == mid.foundation_stack,
                g@.stock == mid.stock,
                g@.waste == mid.waste,
                g@.prev_move == mid.prev_move,
                forall|w: int| 0 <= w < 7 ==> tableau_bytes_ok(#[trigger] g@.tableaus[w]),
                forall|w: int|
                    0 <= w < q ==> fu_min_ok(#[trigger] g@.tableaus[w], g@.first_unlocked[w]),
            decreases 7 - q,
        {
            g.set_first_unlocked_index(q);
            proof {
                assert(g.tableaus@.len() == g@.tableaus.len());
                assert(g.first_unlocked_idx@.len() == g@.first_unlocked.len());
            }
            q += 1;
        }
        proof {
            // each column is a run of one face-up card over face-down cards
            assert forall|w: int| 0 <= w < 7 implies tableau_ok(
                #[trigger] g@.tableaus[w],
                g@.first_unlocked[w],
            ) by {
                let t = g@.tableaus[w];
                assert(t == dealt_col(deck@, w, w + 1));
                assert(forall|x: int|
                    0 <= x < w + 1 ==> #[trigger] t[x] == dealt_byte(deck@, x, w));
                assert(up_of(t.last())) by {
                    lemma_deal_offset_bounds(w, w);
                    assert(t.last() == deck@[51 - deal_offset(w, w)]);
                    assert(deck@[51 - deal_offset(w, w)] < 52);
                }
                assert forall|x: int| 0 <= x < w implies !up_of(#[trigger] t[x]) by {
                    lemma_deal_offset_bounds(x, w);
                    assert(t[x] == downturn_of(deck@[51 - deal_offset(x, w)]));
                }
                assert(tableau_ok(t, w as u8));
                lemma_fu_agrees(t, w as u8, g@.first_unlocked[w]);
            }
            // nothing is on the foundations yet
            assert(forall|w: int| 0 <= w < 4 ==> #[trigger] g@.foundations[w] == NO_CARD);
            assert(forall|w: int| 0 <= w < 4 ==> #[trigger] found_rank(g@, w) == 0);
            assert(foundation_mask_ok(g@)) by {
                assert forall|j: int| 0 <= j < 64 implies !(#[trigger] bit64(
                    g@.foundation_stack,
                    j,
                )) by {
                    lemma_zero_bits(j as u64);
                }
            }
            // the dealt columns and the stock split the deck
            assert(g@.stock == deck@.take(24));
            assert(pile_bytes_ok(g@.stock));
            assert(pile_bytes_ok(g@.waste));
            assert(cards_of(g@) == full_deck()) by {
                broadcast use vstd::multiset::group_multiset_axioms;

                assert(tabs_cards(g@.tableaus) == idx_seq(deck@.subrange(24, 52)).to_multiset())
                    by {
                    assert(g@.tableaus =~= Seq::new(7, |w: int| stack_seq(g.tableaus@[w])));
                }
                assert(deck@ =~= deck@.take(24) + deck@.subrange(24, 52));
                lemma_idx_concat(deck@.take(24), deck@.subrange(24, 52));
                assert(idx_seq(g@.waste) =~= Seq::<u8>::empty());
                assert(found_run(0, 0) =~= Seq::<u8>::empty());
                assert(found_run(1, 0) =~= Seq::<u8>::empty());
                assert(found_run(2, 0) =~= Seq::<u8>::empty());
                assert(found_run(3, 0) =~= Seq::<u8>::empty());
                assert(cards_of(g@) =~= idx_seq(deck@).to_multiset());
            }
            assert(wf(g@));
        }
        g
    }
}


/// Relies on rand's `thread_rng` and `Rng::gen`: a fresh 32-bit value.
/// Nothing can be promised of it.
#[verifier::external_body]
fn random_seed() -> u32 {
    rand::thread_rng().gen::<u32>()
}

/// What the seeded shuffle makes of a byte sequence. `StdRng` is a
/// portable, documented rng whose stream is a function of its seed alone,
/// and the Fisher-Yates walk reads nothing else, so the result is a
/// function of the sequence and the seed; this name stands for it.
pub uninterp spec fn shuffled_of(deck: Seq<u8>, seed: u32) -> Seq<u8>;

/// The deck the given seed selects: the factory-order deck, shuffled.
pub open spec fn deck_of(seed: u32) -> Seq<u8> {
    shuffled_of(Seq::new(52, |i: int| i as u8), seed)
}

/// Relies on rand's `SliceRandom::shuffle` over a rng seeded with
/// `StdRng::seed_from_u64`: the slice is permuted in place, so the bytes
/// are kept with their multiplicities, and the permutation depends on the
/// slice and the seed alone (`shuffled_of` names it).
#[verifier::external_body]
fn shuffle_seeded(v: &mut Vec<u8>, seed: u32)
    ensures
        final(v)@ == shuffled_of(old(v)@, seed),
        final(v)@.to_multiset() == old(v)@.to_multiset(),
        final(v)@.len() == old(v)@.len(),
{
    let mut rng = rand::rngs::StdRng::seed_from_u64(seed as u64);
    v.shuffle(&mut rng);
}

/// The shape every fresh deal has: a well-formed state with the classic
/// column sizes, 24 stock cards, and nothing on waste or foundations.
pub open spec fn fresh_deal_shape(v: GameView) -> bool {
    &&& wf(v)
    &&& v.stock.len() == 24
    &&& v.waste == Seq::<u8>::empty()
    &&& forall|c: int| 0 <= c < 7 ==> #[trigger] v.tableaus[c].len() == c + 1
    &&& forall|q: int| 0 <= q < 4 ==> #[trigger] v.foundations[q] == NO_CARD
    &&& v.foundation_stack == 0
    &&& v.prev_move is None
}

/// The deck in factory order: the 52 card indices, Ace of Clubs first.
fn fresh_deck() -> (v: Vec<u8>)
    ensures
        v@ == Seq::new(52, |i: int| i as u8),
{
    let mut v: Vec<u8> = Vec::new();
    let mut i: usize = 0;
    while i < 52
        invariant
            i <= 52,
            v@.len() == i,
            forall|j: int| 0 <= j < i ==> v@[j] == j as u8,
        decreases 52 - i,
    {
        v.push(i as u8);
        i += 1;
    }
    proof {
        assert(v@ =~= Seq::new(52, |i: int| i as u8));
    }
    v
}

/// A container of bare card indices is its own index sequence.
pub proof fn lemma_idx_id(s: Seq<u8>)
    requires
        pile_bytes_ok(s),
    ensures
        idx_seq(s) == s,
{
    assert(idx_seq(s) =~= s);
}

impl Game {
    /// Deal the game that the given seed selects. The deal is a function
    /// of the seed alone: the stock and every column are pinned to
    /// `deck_of(seed)`, so equal seeds always deal the identical game.
    pub fn new_seeded(seed: u32) -> (g: Game)
        ensures
            fresh_deal_shape(g@),
            g@.stock == deck_of(seed).take(24),
            forall|c: int| 0 <= c < 7 ==> #[trigger] g@.tableaus[c] == dealt_col(
                deck_of(seed),
                c,
                c + 1,
            ),
    {
        let mut deck = fresh_deck();
        proof {
            assert(pile_bytes_ok(deck@));
        }
        shuffle_seeded(&mut deck, seed);
        proof {
            broadcast use vstd::seq_lib::group_to_multiset_ensures;

            let ghost fresh = Seq::new(52, |i: int| i as u8);
            assert forall|j: int| 0 <= j < deck@.len() implies #[trigger] deck@[j] < 52 by {
                assert(deck@.to_multiset().count(deck@[j]) > 0);
                assert(fresh.contains(deck@[j]));
                assert(forall|w: int| 0 <= w < 52 ==> #[trigger] fresh[w] < 52);
            }
            lemma_idx_id(deck@);
            lemma_idx_id(Seq::new(52, |i: int| i as u8));
            assert(idx_seq(deck@).to_multiset() == full_deck());
        }
        let g = Game::new_with_deck(&deck);
        proof {
            assert(forall|c: int|
                0 <= c < 7 ==> #[trigger] g@.tableaus[c].len() == c + 1) by {
                assert(forall|c: int|
                    0 <= c < 7 ==> #[trigger] g@.tableaus[c] == dealt_col(deck@, c, c + 1));
            }
            assert(g@.stock.len() == 24);
        }
        g
    }

    /// Deal a game at random, as the start of a solver run does. Which
    /// deck comes up is chance; its shape holds of every outcome.
    pub fn new() -> (g: Game)
        ensures
            fresh_deal_shape(g@),
    {
        Game::new_seeded(random_seed())
    }

    /// A fresh seed from the thread's rng, for a solver run over a random
    /// deal.
    pub fn pick_seed() -> u32 {
        random_seed()
    }
}

} // verus!
