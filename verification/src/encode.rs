//! The canonical encoder: a fixed-size fingerprint for duplicate
//! detection.
//!
//! Two states that differ only in the order of their tableau columns play
//! identically, so the encoder first puts the columns in a canonical order
//! (ascending by the bottom card's index, empty columns last) and then lays
//! the containers out in 56 bytes, marking the last byte of every segment
//! with the high bit and padding the tail with `0xFF`.
use vstd::prelude::*;
use vstd::multiset::Multiset;
use vstd::seq_lib::group_to_multiset_ensures;
use crate::card::{Card, IsCard, idx_of, real_card};
use crate::stack::{CardStack, stack_seq, score_spec};
use crate::game::{
    Game, GameView, wf, tableau_ok, tableau_bytes_ok, found_rank, idx_seq, tabs_cards, cards_of,
    full_deck, fu_min_ok, lemma_fu_agrees, clone_bytes,
};

verus! {

/// The canonical order of two columns: by score, the bottom card's
/// index, with 255 for an empty column.
pub open spec fn stack_le(a: Seq<u8>, b: Seq<u8>) -> bool {
    score_spec(a) <= score_spec(b)
}

/// The columns stand in canonical order.
pub open spec fn stacks_sorted(s: Seq<Seq<u8>>) -> bool {
    forall|i: int, j: int| 0 <= i < j < s.len() ==> stack_le(#[trigger] s[i], #[trigger] s[j])
}

/// A column inserted into a sorted run of columns, keeping the order.
pub open spec fn insert_sorted(x: Seq<u8>, s: Seq<Seq<u8>>) -> Seq<Seq<u8>>
    decreases s.len(),
{
    if s.len() == 0 {
        seq![x]
    } else if stack_le(x, s[0]) {
        seq![x] + s
    } else {
        seq![s[0]] + insert_sorted(x, s.drop_first())
    }
}

/// The columns in canonical order: insertion sort, one column at a time.
pub open spec fn sort_spec(t: Seq<Seq<u8>>) -> Seq<Seq<u8>>
    decreases t.len(),
{
    if t.len() == 0 {
        Seq::<Seq<u8>>::empty()
    } else {
        insert_sorted(t[0], sort_spec(t.drop_first()))
    }
}

/// Inserting into a sorted run keeps it sorted and adds the one column.
pub proof fn lemma_insert_sorted_ensures(x: Seq<u8>, s: Seq<Seq<u8>>)
    requires
        stacks_sorted(s),
    ensures
        stacks_sorted(insert_sorted(x, s)),
        insert_sorted(x, s).to_multiset() == s.to_multiset().insert(x),
        insert_sorted(x, s).len() == s.len() + 1,
    decreases s.len(),
{
    broadcast use group_to_multiset_ensures;
    broadcast use vstd::multiset::group_multiset_axioms;

    if s.len() == 0 {
        assert(insert_sorted(x, s) =~= Seq::<Seq<u8>>::empty().push(x));
        assert(insert_sorted(x, s).to_multiset() =~= s.to_multiset().insert(x));
    } else if stack_le(x, s[0]) {
        let r = seq![x] + s;
        assert(r =~= s.insert(0, x));
        vstd::seq_lib::to_multiset_insert(s, 0, x);
        assert(forall|j: int| 0 <= j < s.len() ==> #[trigger] r[j + 1] == s[j]);
        assert(stacks_sorted(r)) by {
            assert forall|i: int, j: int| 0 <= i < j < r.len() implies stack_le(
                #[trigger] r[i],
                #[trigger] r[j],
            ) by {
                if i > 0 {
                    assert(r[i] == s[i - 1] && r[j] == s[j - 1]);
                } else {
                    assert(r[j] == s[j - 1]);
                    if j > 1 {
                        assert(stack_le(s[0], s[j - 1]));
                    }
                }
            }
        }
    } else {
        let rest = insert_sorted(x, s.drop_first());
        let r = seq![s[0]] + rest;
        assert(stacks_sorted(s.drop_first()));
        lemma_insert_sorted_ensures(x, s.drop_first());
        assert(r.to_multiset() == s.to_multiset().insert(x)) by {
            assert(r =~= rest.insert(0, s[0]));
            vstd::seq_lib::to_multiset_insert(rest, 0, s[0]);
            assert(s =~= s.drop_first().insert(0, s[0]));
            vstd::seq_lib::to_multiset_insert(s.drop_first(), 0, s[0]);
            assert(r.to_multiset() =~= s.to_multiset().insert(x));
        }
        assert(stacks_sorted(r)) by {
            assert(rest.to_multiset().count(x) > 0);
            assert forall|j: int| 0 <= j < rest.len() implies stack_le(
                s[0],
                #[trigger] rest[j],
            ) by {
                assert(rest.to_multiset().count(rest[j]) > 0);
                assert(s.to_multiset().insert(x).count(rest[j]) > 0);
                if rest[j] == x {
                    assert(!stack_le(x, s[0]));
                } else {
                    assert(s.to_multiset().count(rest[j]) > 0);
                    assert(s.contains(rest[j]));
                    let w = choose|w: int| 0 <= w < s.len() && s[w] == rest[j];
                    if w > 0 {
                        assert(stack_le(s[0], s[w]));
                    }
                }
            }
            assert forall|i: int, j: int| 0 <= i < j < r.len() implies stack_le(
                #[trigger] r[i],
                #[trigger] r[j],
            ) by {
                if i > 0 {
                    assert(r[i] == rest[i - 1] && r[j] == rest[j - 1]);
                } else {
                    assert(r[j] == rest[j - 1]);
                }
            }
        }
    }
}

/// The canonical order is sorted and keeps every column.
pub proof fn lemma_sort_spec_ensures(t: Seq<Seq<u8>>)
    ensures
        stacks_sorted(sort_spec(t)),
        sort_spec(t).to_multiset() == t.to_multiset(),
        sort_spec(t).len() == t.len(),
    decreases t.len(),
{
    broadcast use group_to_multiset_ensures;
    broadcast use vstd::multiset::group_multiset_axioms;

    if t.len() == 0 {
        assert(sort_spec(t).to_multiset() =~= t.to_multiset());
    } else {
        lemma_sort_spec_ensures(t.drop_first());
        lemma_insert_sorted_ensures(t[0], sort_spec(t.drop_first()));
        assert(t =~= t.drop_first().insert(0, t[0]));
        vstd::seq_lib::to_multiset_insert(t.drop_first(), 0, t[0]);
        assert(sort_spec(t).to_multiset() =~= t.to_multiset());
    }
}

/// Columns with the same score are the same column (of the collection at
/// hand): what the card-partition invariant grants the sorter.
pub open spec fn scores_injective(m: Multiset<Seq<u8>>) -> bool {
    forall|a: Seq<u8>, b: Seq<u8>|
        #![trigger m.count(a), m.count(b)]
        m.count(a) > 0 && m.count(b) > 0 && score_spec(a) == score_spec(b) ==> a == b
}

/// Two sorted arrangements of the same columns coincide, as long as equal
/// scores only arise from equal columns.
pub proof fn lemma_stacks_sorted_unique(x: Seq<Seq<u8>>, y: Seq<Seq<u8>>)
    requires
        stacks_sorted(x),
        stacks_sorted(y),
        x.to_multiset() == y.to_multiset(),
        scores_injective(x.to_multiset()),
    ensures
        x == y,
    decreases x.len(),
{
    broadcast use group_to_multiset_ensures;
    broadcast use vstd::multiset::group_multiset_axioms;

    if x.len() == 0 {
        assert(y.to_multiset().len() == 0);
        assert(x =~= y);
    } else {
        assert(x.to_multiset().count(x[0]) > 0);
        assert(y.len() > 0) by {
            assert(y.to_multiset().len() == x.to_multiset().len());
        }
        assert(y.to_multiset().count(y[0]) > 0);
        assert(x.contains(y[0]));
        assert(y.contains(x[0]));
        let i = choose|i: int| 0 <= i < x.len() && x[i] == y[0];
        let j = choose|j: int| 0 <= j < y.len() && y[j] == x[0];
        assert(stack_le(x[0], x[i]) || i == 0);
        assert(stack_le(y[0], y[j]) || j == 0);
        assert(score_spec(x[0]) == score_spec(y[0]));
        assert(x.to_multiset().count(x[0]) > 0);
        assert(x.to_multiset().count(y[0]) > 0);
        assert(x[0] == y[0]);
        vstd::seq_lib::to_multiset_remove(x, 0);
        vstd::seq_lib::to_multiset_remove(y, 0);
        assert(x.remove(0) =~= x.drop_first());
        assert(y.remove(0) =~= y.drop_first());
        assert(x.drop_first().to_multiset() == y.drop_first().to_multiset());
        assert(scores_injective(x.drop_first().to_multiset())) by {
            assert(forall|a: Seq<u8>|
                #[trigger] x.drop_first().to_multiset().count(a) > 0 ==> x.to_multiset().count(a)
                    > 0);
        }
        assert(stacks_sorted(x.drop_first())) by {
            assert(forall|w: int|
                0 <= w < x.drop_first().len() ==> #[trigger] x.drop_first()[w] == x[w + 1]);
        }
        assert(stacks_sorted(y.drop_first())) by {
            assert(forall|w: int|
                0 <= w < y.drop_first().len() ==> #[trigger] y.drop_first()[w] == y[w + 1]);
        }
        lemma_stacks_sorted_unique(x.drop_first(), y.drop_first());
        assert(x.len() == y.len()) by {
            assert(x.to_multiset().len() == y.to_multiset().len());
        }
        assert forall|w: int| 0 <= w < x.len() implies #[trigger] x[w] == y[w] by {
            if w > 0 {
                assert(x.drop_first()[w - 1] == y.drop_first()[w - 1]);
            }
        }
        assert(x =~= y);
    }
}


/// The tableau multiset, column by column, for any number of columns.
pub open spec fn cols_cards(t: Seq<Seq<u8>>) -> Multiset<u8>
    decreases t.len(),
{
    if t.len() == 0 {
        Multiset::<u8>::empty()
    } else {
        idx_seq(t[0]).to_multiset().add(cols_cards(t.drop_first()))
    }
}

/// Any column can be split off the sum.
pub proof fn lemma_cols_cards_remove(t: Seq<Seq<u8>>, i: int)
    requires
        0 <= i < t.len(),
    ensures
        cols_cards(t) == idx_seq(t[i]).to_multiset().add(cols_cards(t.remove(i))),
    decreases i,
{
    broadcast use vstd::multiset::group_multiset_axioms;

    if i == 0 {
        assert(t.remove(0) =~= t.drop_first());
    } else {
        assert(t.remove(i).drop_first() =~= t.drop_first().remove(i - 1));
        assert(t.remove(i)[0] == t[0]);
        lemma_cols_cards_remove(t.drop_first(), i - 1);
        assert(cols_cards(t) =~= idx_seq(t[i]).to_multiset().add(cols_cards(t.remove(i))));
    }
}

/// The tableau multiset sees only which columns there are, not their
/// order.
pub proof fn lemma_cols_cards_perm(t: Seq<Seq<u8>>, t2: Seq<Seq<u8>>)
    requires
        t.to_multiset() == t2.to_multiset(),
    ensures
        cols_cards(t) == cols_cards(t2),
    decreases t.len(),
{
    broadcast use group_to_multiset_ensures;
    broadcast use vstd::multiset::group_multiset_axioms;

    if t.len() == 0 {
        assert(t2.to_multiset().len() == 0);
        assert(t2 =~= Seq::<Seq<u8>>::empty());
    } else {
        assert(t.to_multiset().count(t[0]) > 0);
        assert(t2.contains(t[0]));
        let i = choose|i: int| 0 <= i < t2.len() && t2[i] == t[0];
        vstd::seq_lib::to_multiset_remove(t2, i);
        vstd::seq_lib::to_multiset_remove(t, 0);
        assert(t.remove(0) =~= t.drop_first());
        assert(t.drop_first().to_multiset() == t2.remove(i).to_multiset());
        lemma_cols_cards_perm(t.drop_first(), t2.remove(i));
        lemma_cols_cards_remove(t2, i);
    }
}

/// For the seven columns of a game the running sum is the tableau
/// multiset.
pub proof fn lemma_tabs_cols(t: Seq<Seq<u8>>)
    requires
        t.len() == 7,
    ensures
        tabs_cards(t) == cols_cards(t),
{
    broadcast use vstd::multiset::group_multiset_axioms;

    let t1 = t.drop_first();
    let t2 = t1.drop_first();
    let t3 = t2.drop_first();
    let t4 = t3.drop_first();
    let t5 = t4.drop_first();
    let t6 = t5.drop_first();
    let t7 = t6.drop_first();
    assert(t7.len() == 0);
    assert(t1[0] == t[1] && t2[0] == t[2] && t3[0] == t[3] && t4[0] == t[4] && t5[0] == t[5]
        && t6[0] == t[6]);
    assert(cols_cards(t) == idx_seq(t[0]).to_multiset().add(cols_cards(t1)));
    assert(cols_cards(t1) == idx_seq(t[1]).to_multiset().add(cols_cards(t2)));
    assert(cols_cards(t2) == idx_seq(t[2]).to_multiset().add(cols_cards(t3)));
    assert(cols_cards(t3) == idx_seq(t[3]).to_multiset().add(cols_cards(t4)));
    assert(cols_cards(t4) == idx_seq(t[4]).to_multiset().add(cols_cards(t5)));
    assert(cols_cards(t5) == idx_seq(t[5]).to_multiset().add(cols_cards(t6)));
    assert(cols_cards(t6) == idx_seq(t[6]).to_multiset().add(cols_cards(t7)));
    assert(cols_cards(t7) == Multiset::<u8>::empty());
    assert(tabs_cards(t) =~= cols_cards(t));
}

/// Under the card-partition invariant two columns with the same score are
/// the same column: distinct columns start with distinct cards.
pub proof fn lemma_wf_scores_injective(v: GameView)
    requires
        wf(v),
    ensures
        scores_injective(v.tableaus.to_multiset()),
{
    broadcast use group_to_multiset_ensures;
    broadcast use vstd::multiset::group_multiset_axioms;

    let t = v.tableaus;
    assert forall|a: Seq<u8>, b: Seq<u8>|
        #![trigger t.to_multiset().count(a), t.to_multiset().count(b)]
        t.to_multiset().count(a) > 0 && t.to_multiset().count(b) > 0 && score_spec(a)
            == score_spec(b) implies a == b by {
        if a != b {
            assert(t.contains(a) && t.contains(b));
            let ia = choose|ia: int| 0 <= ia < 7 && t[ia] == a;
            let ib = choose|ib: int| 0 <= ib < 7 && t[ib] == b;
            assert(ia != ib);
            assert(tableau_bytes_ok(t[ia]) && tableau_bytes_ok(t[ib]));
            if a.len() == 0 {
                assert(score_spec(b) == 255);
                assert(b.len() > 0 ==> idx_of(b[0]) < 52);
                assert(b.len() == 0);
            } else if b.len() == 0 {
                assert(score_spec(a) == 255);
                assert(idx_of(a[0]) < 52);
            } else {
                let e = idx_of(a[0]);
                assert(idx_of(b[0]) == e);
                assert(idx_seq(a)[0] == e && idx_seq(b)[0] == e);
                assert(idx_seq(a).contains(e) && idx_seq(b).contains(e));
                assert(idx_seq(a).to_multiset().count(e) > 0);
                assert(idx_seq(b).to_multiset().count(e) > 0);
                lemma_cols_cards_remove(t, ia);
                let rest = t.remove(ia);
                let ib2: int = if ib < ia {
                    ib
                } else {
                    ib - 1
                };
                assert(rest[ib2] == b);
                lemma_cols_cards_remove(rest, ib2);
                assert(cols_cards(t).count(e) >= 2);
                lemma_tabs_cols(t);
                assert(cards_of(v).count(e) >= 2);
                let fd = Seq::new(52, |i: int| i as u8);
                assert(fd.no_duplicates()) by {
                    assert(forall|i: int, j: int|
                        0 <= i < 52 && 0 <= j < 52 && i != j ==> #[trigger] fd[i] != #[trigger] fd[j]);
                }
                fd.lemma_multiset_has_no_duplicates();
                assert(full_deck().count(e) <= 1) by {
                    if full_deck().count(e) >= 2 {
                        assert(fd.to_multiset().contains(e));
                    }
                }
            }
        }
    }
}

impl Game {
    /// The same game with its tableau columns in canonical order and the
    /// unlocked-run caches recomputed.
    #[verifier::rlimit(60)]
    pub fn sort_tableaus(&self) -> (r: Game)
        requires
            wf(self@),
        ensures
            r@.tableaus == sort_spec(self@.tableaus),
            r@.foundations == self@.foundations,
            r@.foundation_stack == self@.foundation_stack,
            r@.stock == self@.stock,
            r@.waste == self@.waste,
            r@.prev_move == self@.prev_move,
            wf(r@),
    {
        broadcast use group_to_multiset_ensures;

        let ghost t = self@.tableaus;
        let mut sorted: Vec<CardStack> = Vec::new();
        let mut i: usize = 0;
        while i < 7
            invariant
                wf(self@),
                t == self@.tableaus,
                i <= 7,
                sorted@.len() == i,
                Seq::new(i as nat, |w: int| stack_seq(sorted@[w])).to_multiset() == t.subrange(
                    0,
                    i as int,
                ).to_multiset(),
                stacks_sorted(Seq::new(i as nat, |w: int| stack_seq(sorted@[w]))),
            decreases 7 - i,
        {
            broadcast use group_to_multiset_ensures;

            let ghost before = Seq::new(i as nat, |w: int| stack_seq(sorted@[w]));
            let sc = self.tableaus[i].score();
            let mut pos: usize = 0;
            loop
                invariant
                    pos <= sorted@.len(),
                    sorted@.len() == i,
                    i <= 7,
                    before == Seq::new(i as nat, |w: int| stack_seq(sorted@[w])),
                    stacks_sorted(before),
                    sc == score_spec(stack_seq(self.tableaus@[i as int])),
                    forall|w: int| 0 <= w < pos ==> score_spec(#[trigger] before[w]) <= sc,
                ensures
                    pos <= sorted@.len(),
                    sorted@.len() == i,
                    before == Seq::new(i as nat, |w: int| stack_seq(sorted@[w])),
                    forall|w: int| 0 <= w < pos ==> score_spec(#[trigger] before[w]) <= sc,
                    forall|w: int|
                        pos <= w < before.len() ==> score_spec(#[trigger] before[w]) > sc,
                decreases sorted@.len() - pos,
            {
                if pos >= sorted.len() {
                    break;
                }
                if sorted[pos].score() > sc {
                    proof {
                        assert(score_spec(before[pos as int]) > sc);
                        assert(forall|w: int|
                            pos <= w < before.len() ==> stack_le(
                                before[pos as int],
                                #[trigger] before[w],
                            ) || w == pos);
                    }
                    break;
                }
                pos += 1;
            }
            sorted.insert(pos, self.tableaus[i].duplicate());
            proof {
                let x = stack_seq(self.tableaus@[i as int]);
                let after = Seq::new((i + 1) as nat, |w: int| stack_seq(sorted@[w]));
                assert(after =~= before.insert(pos as int, x));
                vstd::seq_lib::to_multiset_insert(before, pos as int, x);
                assert(t.subrange(0, i + 1) =~= t.subrange(0, i as int).push(t[i as int]));
                assert(x == t[i as int]);
                assert(after.to_multiset() == t.subrange(0, i + 1).to_multiset());
                assert(stacks_sorted(after)) by {
                    assert(forall|w: int|
                        0 <= w < pos ==> #[trigger] after[w] == before[w]);
                    assert(forall|w: int|
                        pos < w < after.len() ==> #[trigger] after[w] == before[w - 1]);
                    assert(after[pos as int] == x);
                    assert forall|w1: int, w2: int| 0 <= w1 < w2 < after.len() implies stack_le(
                        #[trigger] after[w1],
                        #[trigger] after[w2],
                    ) by {
                        if w1 == pos {
                            assert(score_spec(before[w2 - 1]) > sc);
                        } else if w2 == pos {
                            assert(score_spec(before[w1]) <= sc);
                        }
                    }
                }
            }
            i += 1;
        }
        let mut g = Game {
            tableaus: sorted,
            first_unlocked_idx: clone_bytes(&self.first_unlocked_idx),
            foundations: clone_bytes(&self.foundations),
            foundation_stack: self.foundation_stack,
            stock: self.stock.duplicate(),
            waste: self.waste.duplicate(),
            prev_move: self.prev_move,
        };
        proof {
            assert(g@.tableaus =~= Seq::new(7nat, |w: int| stack_seq(g.tableaus@[w])));
            assert(g@.tableaus.to_multiset() == t.to_multiset()) by {
                assert(t.subrange(0, 7) =~= t);
            }
            lemma_sort_spec_ensures(t);
            lemma_wf_scores_injective(self@);
            lemma_stacks_sorted_unique(g@.tableaus, sort_spec(t));
            assert(g@.tableaus == sort_spec(t));
            assert forall|w: int| 0 <= w < 7 implies tableau_bytes_ok(
                #[trigger] g@.tableaus[w],
            ) by {
                assert(g@.tableaus.to_multiset().count(g@.tableaus[w]) > 0);
                assert(t.contains(g@.tableaus[w]));
                let q = choose|q: int| 0 <= q < 7 && t[q] == g@.tableaus[w];
                assert(tableau_bytes_ok(t[q]));
            }
        }
        let ghost mid = g@;
        proof {
            assert(mid.foundations == self@.foundations);
            assert(mid.foundation_stack == self@.foundation_stack);
            assert(mid.stock == self@.stock);
            assert(mid.waste == self@.waste);
            assert(mid.prev_move == self@.prev_move);
        }
        let mut q: usize = 0;
        while q < 7
            invariant
                wf(self@),
                mid.foundations == self@.foundations,
                mid.foundation_stack == self@.foundation_stack,
                mid.stock == self@.stock,
                mid.waste == self@.waste,
                mid.prev_move == self@.prev_move,
                q <= 7,
                g.tableaus@.len() == 7,
                g.first_unlocked_idx@.len() == 7,
                g@.tableaus == mid.tableaus,
                g@.foundations == mid.foundations,
                g@.foundation_stack == mid.foundation_stack,
                g@.stock == mid.stock,
                g@.waste == mid.waste,
                g@.prev_move == mid.prev_move,
                forall|w: int| 0 <= w < 7 ==> tableau_bytes_ok(#[trigger] g@.tableaus[w]),
                forall|w: int|
                    0 <= w < q ==> fu_min_ok(#[trigger] g@.tableaus[w], g@.first_unlocked[w]),
            decreases 7 - q,
        {
            g.set_first_unlocked_index(q);
            proof {
                assert(g.tableaus@.len() == g@.tableaus.len());
                assert(g.first_unlocked_idx@.len() == g@.first_unlocked.len());
            }
            q += 1;
        }
        proof {
            broadcast use group_to_multiset_ensures;

            assert forall|w: int| 0 <= w < 7 implies tableau_ok(
                #[trigger] g@.tableaus[w],
                g@.first_unlocked[w],
            ) by {
                assert(g@.tableaus.to_multiset().count(g@.tableaus[w]) > 0);
                assert(t.contains(g@.tableaus[w]));
                let p = choose|p: int| 0 <= p < 7 && t[p] == g@.tableaus[w];
                assert(tableau_ok(t[p], self@.first_unlocked[p]));
                lemma_fu_agrees(g@.tableaus[w], self@.first_unlocked[p], g@.first_unlocked[w]);
            }
            assert(cards_of(g@) == cards_of(self@)) by {
                lemma_tabs_cols(g@.tableaus);
                lemma_tabs_cols(t);
                lemma_cols_cards_perm(g@.tableaus, t);
            }
            assert(crate::game::foundations_ok(g@));
            assert(crate::game::foundation_mask_ok(g@)) by {
                assert(forall|j: int|
                    0 <= j < 4 ==> #[trigger] found_rank(g@, j) == found_rank(self@, j));
            }
            assert(wf(g@));
        }
        g
    }
}


/// A 56-byte fingerprint of a game state, used for duplicate detection in
/// the search: states with equal fingerprints are the same search node.
#[derive(Debug, Hash, PartialEq, Eq)]
pub struct GameCompact {
    pub data: Vec<u8>,
}

/// The last byte of the sequence with its high bit set: the delimiter
/// mark of a finished segment. An empty sequence stays empty.
pub open spec fn mark_last(s: Seq<u8>) -> Seq<u8> {
    if s.len() == 0 {
        s
    } else {
        s.update(s.len() - 1, s.last() | 0x80u8)
    }
}

/// One container appended to the encoding, its end marked. An empty
/// container re-marks the previous segment's end.
pub open spec fn put_segment(acc: Seq<u8>, seg: Seq<u8>) -> Seq<u8> {
    mark_last(acc + seg)
}

/// The first `n` tableau columns appended to the encoding, in order.
pub open spec fn put_tabs(acc: Seq<u8>, tabs: Seq<Seq<u8>>, n: int) -> Seq<u8>
    decreases n,
{
    if n <= 0 {
        acc
    } else {
        put_segment(put_tabs(acc, tabs, n - 1), tabs[n - 1])
    }
}

/// The encoding before padding: foundations, stock, waste, then the seven
/// tableau columns in canonical order, each segment's last byte marked.
/// Stock and waste bytes are bare card indices here, so the orientation
/// bit never enters the fingerprint.
pub open spec fn encode_body(v: GameView) -> Seq<u8> {
    put_tabs(
        put_segment(
            put_segment(
                mark_last(
                    seq![v.foundations[0], v.foundations[1], v.foundations[2], v.foundations[3]],
                ),
                v.stock,
            ),
            v.waste,
        ),
        sort_spec(v.tableaus),
        7,
    )
}

/// The fingerprint: the encoding padded with `0xFF` to exactly 56 bytes.
pub open spec fn encode_spec(v: GameView) -> Seq<u8> {
    encode_body(v) + Seq::new((56 - encode_body(v).len()) as nat, |i: int| 255u8)
}

/// Marking pushes a byte to 128 or above, and leaves one there.
proof fn lemma_mark_byte(c: u8)
    ensures
        c | 0x80u8 >= 128,
        c >= 128 ==> c | 0x80u8 == c,
{
    assert(c | 0x80u8 >= 128) by (bit_vector);
    assert(c >= 128 ==> c | 0x80u8 == c) by (bit_vector);
}

/// Appending a segment never unsets an earlier delimiter.
proof fn lemma_put_segment_preserves(acc: Seq<u8>, seg: Seq<u8>, p: int)
    requires
        0 <= p < acc.len(),
        acc[p] >= 128,
    ensures
        put_segment(acc, seg).len() == acc.len() + seg.len(),
        p < put_segment(acc, seg).len(),
        put_segment(acc, seg)[p] >= 128,
{
    let joined = acc + seg;
    assert(joined[p] == acc[p]);
    if p == joined.len() - 1 {
        lemma_mark_byte(joined.last());
    }
}

/// Nor does appending any number of tableau columns.
proof fn lemma_put_tabs_preserves(acc: Seq<u8>, tabs: Seq<Seq<u8>>, n: int, p: int)
    requires
        0 <= p < acc.len(),
        acc[p] >= 128,
        0 <= n,
    ensures
        put_tabs(acc, tabs, n).len() >= acc.len(),
        put_tabs(acc, tabs, n)[p] >= 128,
    decreases n,
{
    if n > 0 {
        lemma_put_tabs_preserves(acc, tabs, n - 1, p);
        lemma_put_segment_preserves(put_tabs(acc, tabs, n - 1), tabs[n - 1], p);
    }
}

/// The length of the encoding of `n` columns.
proof fn lemma_put_tabs_len(acc: Seq<u8>, tabs: Seq<Seq<u8>>, n: int)
    requires
        0 <= n,
    ensures
        put_tabs(acc, tabs, n).len() == acc.len() + cols_len(tabs, n),
    decreases n,
{
    if n > 0 {
        lemma_put_tabs_len(acc, tabs, n - 1);
    }
}

/// The summed length of the first `n` columns.
pub open spec fn cols_len(tabs: Seq<Seq<u8>>, n: int) -> int
    decreases n,
{
    if n <= 0 {
        0
    } else {
        cols_len(tabs, n - 1) + tabs[n - 1].len()
    }
}

/// The summed column length is the size of the tableau multiset.
proof fn lemma_cols_len_cards(t: Seq<Seq<u8>>)
    requires
        t.len() == 7,
    ensures
        cols_len(t, 7) == tabs_cards(t).len(),
{
    broadcast use group_to_multiset_ensures;
    broadcast use vstd::multiset::group_multiset_axioms;

    assert(cols_len(t, 7) == t[0].len() + t[1].len() + t[2].len() + t[3].len() + t[4].len()
        + t[5].len() + t[6].len()) by {
        assert(cols_len(t, 0) == 0);
        assert(cols_len(t, 1) == cols_len(t, 0) + t[0].len());
        assert(cols_len(t, 2) == cols_len(t, 1) + t[1].len());
        assert(cols_len(t, 3) == cols_len(t, 2) + t[2].len());
        assert(cols_len(t, 4) == cols_len(t, 3) + t[3].len());
        assert(cols_len(t, 5) == cols_len(t, 4) + t[4].len());
        assert(cols_len(t, 6) == cols_len(t, 5) + t[5].len());
        assert(cols_len(t, 7) == cols_len(t, 6) + t[6].len());
    }
    assert(forall|w: int| 0 <= w < 7 ==> (#[trigger] idx_seq(t[w]).to_multiset()).len() == t[w].len());
}

/// The encoding of a well-formed state fits: 4 foundation bytes plus one
/// byte for every card outside the foundations, at most 56 in all.
pub proof fn lemma_encode_body_len(v: GameView)
    requires
        wf(v),
    ensures
        encode_body(v).len() == 4 + v.stock.len() + v.waste.len() + tabs_cards(v.tableaus).len(),
        4 <= encode_body(v).len() <= 56,
{
    crate::mutate::lemma_wf_lens(v);
    let founds = seq![v.foundations[0], v.foundations[1], v.foundations[2], v.foundations[3]];
    let base = put_segment(put_segment(mark_last(founds), v.stock), v.waste);
    lemma_sort_spec_ensures(v.tableaus);
    lemma_put_tabs_len(base, sort_spec(v.tableaus), 7);
    lemma_cols_len_cards(sort_spec(v.tableaus));
    lemma_tabs_cols(sort_spec(v.tableaus));
    lemma_tabs_cols(v.tableaus);
    lemma_cols_cards_perm(sort_spec(v.tableaus), v.tableaus);
    broadcast use group_to_multiset_ensures;
    broadcast use vstd::multiset::group_multiset_axioms;

    assert(tabs_cards(v.tableaus).len() + found_rank(v, 0) + found_rank(v, 1) + found_rank(v, 2)
        + found_rank(v, 3) + v.stock.len() + v.waste.len() == 52);
}

/// The fingerprint of a well-formed state is well-formed: exactly 56
/// bytes, with the four container-level delimiters set — after the
/// foundations, after the stock, after the waste, and at the end of the
/// tableau block.
pub proof fn lemma_fingerprint_wf(v: GameView)
    requires
        wf(v),
    ensures
        encode_spec(v).len() == 56,
        encode_spec(v)[3] >= 128,
        encode_spec(v)[3 + v.stock.len() as int] >= 128,
        encode_spec(v)[3 + v.stock.len() as int + v.waste.len() as int] >= 128,
        encode_spec(v)[encode_body(v).len() as int - 1] >= 128,
{
    lemma_encode_body_len(v);
    let founds = seq![v.foundations[0], v.foundations[1], v.foundations[2], v.foundations[3]];
    let b0 = mark_last(founds);
    let b1 = put_segment(b0, v.stock);
    let b2 = put_segment(b1, v.waste);
    let tabs = sort_spec(v.tableaus);
    lemma_mark_byte(founds.last());
    assert(b0[3] >= 128);
    // the stock delimiter
    lemma_mark_byte((b0 + v.stock).last());
    assert(b1[3 + v.stock.len() as int] >= 128);
    lemma_put_segment_preserves(b0, v.stock, 3);
    // the waste delimiter
    lemma_mark_byte((b1 + v.waste).last());
    assert(b2[3 + v.stock.len() as int + v.waste.len() as int] >= 128);
    lemma_put_segment_preserves(b1, v.waste, 3);
    lemma_put_segment_preserves(b1, v.waste, 3 + v.stock.len() as int);
    // the tableau block keeps them all and marks its own end
    lemma_put_tabs_preserves(b2, tabs, 7, 3);
    lemma_put_tabs_preserves(b2, tabs, 7, 3 + v.stock.len() as int);
    lemma_put_tabs_preserves(b2, tabs, 7, 3 + v.stock.len() as int + v.waste.len() as int);
    let body = encode_body(v);
    assert(body.last() >= 128) by {
        assert(body == put_segment(put_tabs(b2, tabs, 6), tabs[6]));
        lemma_mark_byte((put_tabs(b2, tabs, 6) + tabs[6]).last());
        lemma_put_tabs_len(b2, tabs, 6);
    }
    assert(forall|p: int|
        0 <= p < body.len() ==> #[trigger] encode_spec(v)[p] == body[p]);
}

/// Fingerprints see only which columns a state has, never their order in
/// memory: two states that differ by a permutation of the tableau array
/// encode identically.
pub proof fn lemma_fingerprint_permutation(v1: GameView, v2: GameView)
    requires
        wf(v1),
        wf(v2),
        v2.tableaus.to_multiset() == v1.tableaus.to_multiset(),
        v2.foundations == v1.foundations,
        v2.stock == v1.stock,
        v2.waste == v1.waste,
    ensures
        encode_spec(v2) == encode_spec(v1),
{
    lemma_sort_spec_ensures(v1.tableaus);
    lemma_sort_spec_ensures(v2.tableaus);
    lemma_wf_scores_injective(v1);
    lemma_stacks_sorted_unique(sort_spec(v2.tableaus), sort_spec(v1.tableaus));
}

/// Putting the columns in canonical order twice is the same as doing it
/// once.
pub proof fn lemma_sort_idempotent(v: GameView)
    requires
        wf(v),
    ensures
        sort_spec(sort_spec(v.tableaus)) == sort_spec(v.tableaus),
{
    lemma_sort_spec_ensures(v.tableaus);
    lemma_sort_spec_ensures(sort_spec(v.tableaus));
    lemma_wf_scores_injective(v);
    lemma_stacks_sorted_unique(sort_spec(sort_spec(v.tableaus)), sort_spec(v.tableaus));
}


/// Set the high bit of the encoding's last byte: the segment delimiter.
fn mark_tail(data: &mut Vec<u8>)
    requires
        old(data)@.len() > 0,
    ensures
        final(data)@ == mark_last(old(data)@),
{
    let n = data.len();
    let b = data[n - 1];
    data[n - 1] = b | 0x80;
    proof {
        assert(final(data)@ =~= mark_last(old(data)@));
    }
}

/// Append a stack's bytes, bottom first, to the encoding.
fn append_stack(data: &mut Vec<u8>, st: &CardStack)
    ensures
        final(data)@ == old(data)@ + stack_seq(*st),
{
    let n = st.len();
    let mut j: usize = 0;
    while j < n
        invariant
            n == stack_seq(*st).len(),
            j <= n,
            data@ == old(data)@ + stack_seq(*st).take(j as int),
        decreases n - j,
    {
        data.push(st.at(j));
        proof {
            assert(old(data)@ + stack_seq(*st).take(j + 1) =~= (old(data)@ + stack_seq(
                *st,
            ).take(j as int)).push(stack_seq(*st)[j as int]));
        }
        j += 1;
    }
    proof {
        assert(old(data)@ + stack_seq(*st).take(n as int) =~= old(data)@ + stack_seq(*st));
    }
}

impl Game {
    /// The canonical fingerprint of this state: the tableau columns in
    /// canonical order, every container laid out in 56 bytes with marked
    /// segment ends and an `0xFF` tail.
    #[verifier::rlimit(60)]
    pub fn compact_state(&self) -> (r: GameCompact)
        requires
            wf(self@),
        ensures
            r.data@ == encode_spec(self@),
            r.data@.len() == 56,
    {
        let ghost v = self@;
        let sorted_game = self.sort_tableaus();
        let ghost founds = seq![
            v.foundations[0],
            v.foundations[1],
            v.foundations[2],
            v.foundations[3],
        ];
        let mut data: Vec<u8> = Vec::new();
        data.push(sorted_game.foundations[0]);
        data.push(sorted_game.foundations[1]);
        data.push(sorted_game.foundations[2]);
        data.push(sorted_game.foundations[3]);
        proof {
            assert(data@ =~= founds);
        }
        mark_tail(&mut data);
        let ghost b0 = mark_last(founds);
        append_stack(&mut data, &sorted_game.stock);
        mark_tail(&mut data);
        let ghost b1 = put_segment(b0, v.stock);
        append_stack(&mut data, &sorted_game.waste);
        mark_tail(&mut data);
        let ghost b2 = put_segment(b1, v.waste);
        proof {
            assert(data@ == b2);
            assert(data@ == put_tabs(b2, sort_spec(v.tableaus), 0));
        }
        let mut i: usize = 0;
        while i < 7
            invariant
                wf(v),
                v == self@,
                i <= 7,
                sorted_game@.tableaus == sort_spec(v.tableaus),
                sorted_game.tableaus@.len() == 7,
                b2.len() > 0,
                data@ == put_tabs(b2, sort_spec(v.tableaus), i as int),
                data@.len() >= b2.len(),
            decreases 7 - i,
        {
            append_stack(&mut data, &sorted_game.tableaus[i]);
            mark_tail(&mut data);
            proof {
                assert(stack_seq(sorted_game.tableaus@[i as int]) == sort_spec(v.tableaus)[
                    i as int
                ]);
                assert(data@ == put_segment(
                    put_tabs(b2, sort_spec(v.tableaus), i as int),
                    sort_spec(v.tableaus)[i as int],
                ));
                assert(data@ == put_tabs(b2, sort_spec(v.tableaus), i + 1));
            }
            i += 1;
        }
        proof {
            assert(data@ == encode_body(v));
            lemma_encode_body_len(v);
        }
        let ghost body = encode_body(v);
        while data.len() < 56
            invariant
                body.len() <= 56,
                body.len() <= data@.len() <= 56,
                data@ == body + Seq::new((data@.len() - body.len()) as nat, |w: int| 255u8),
            decreases 56 - data@.len(),
        {
            data.push(u8::MAX);
            proof {
                assert(data@ =~= body + Seq::new(
                    (data@.len() - body.len()) as nat,
                    |w: int| 255u8,
                ));
            }
        }
        proof {
            assert(data@ =~= encode_spec(v));
        }
        GameCompact { data }
    }
}

} // verus!
