use klondike::card::{
    are_card_colors_different, are_card_ranks_ascending, are_card_ranks_descending,
    are_card_suits_the_same, can_be_placed_on_top_of, card_rank, is_king, is_red, pretty_string,
    suit_rank, IsCard,
};
use klondike::game::Game;
use klondike::moves::{CardPosition, Move};
use klondike::solver::{SolveOutcome, Solver};
use klondike::stack::CardStack;

/// The byte of the card with the given suit (0 Clubs, 1 Diamonds,
/// 2 Spades, 3 Hearts) and rank (1 Ace .. 13 King), face up.
fn card(suit: u8, rank: u8) -> u8 {
    suit * 13 + rank - 1
}

fn face_down(c: u8) -> u8 {
    c | 0x40
}

fn stack_of(cards: &[u8]) -> CardStack {
    let mut s = CardStack::new();
    for &c in cards {
        s.push(c);
    }
    s
}

/// The foundation bitmask that matches the given foundation tops.
fn mask_for(foundations: &[u8]) -> u64 {
    let mut m: u64 = 0;
    for s in 0..4u64 {
        let top = foundations[s as usize];
        if top != 0xFF {
            let rank = (top % 13 + 1) as u64;
            for q in 0..rank {
                m |= 1 << (13 * s + q);
            }
        }
    }
    m
}

/// Assemble a game from explicit containers, recomputing the caches.
fn game_from(tabs: [&[u8]; 7], foundations: [u8; 4], stock: &[u8], waste: &[u8]) -> Game {
    let mut tableaus = Vec::new();
    for t in tabs.iter() {
        tableaus.push(stack_of(t));
    }
    let mut g = Game {
        tableaus,
        first_unlocked_idx: vec![255u8; 7],
        foundations: foundations.to_vec(),
        foundation_stack: mask_for(&foundations),
        stock: stack_of(stock),
        waste: stack_of(waste),
        prev_move: None,
    };
    for i in 0..7 {
        g.set_first_unlocked_index(i);
    }
    g
}

/// An alternating-color King-to-Ace run: ranks 13 down to 1, odd ranks
/// from `suit_a`, even ranks from `suit_b`.
fn full_run(suit_a: u8, suit_b: u8) -> Vec<u8> {
    let mut run = Vec::new();
    for rank in (1..=13u8).rev() {
        let suit = if rank % 2 == 1 { suit_a } else { suit_b };
        run.push(card(suit, rank));
    }
    run
}

#[test]
fn card_codec_rank_suit_color() {
    assert_eq!(card_rank(card(0, 1)), 1);
    assert_eq!(card_rank(card(0, 13)), 13);
    assert_eq!(card_rank(card(3, 13)), 13);
    assert_eq!(card_rank(0xFF), 0);
    assert_eq!(suit_rank(card(1, 5)), 1);
    assert_eq!(suit_rank(card(2, 12)), 2);
    assert!(is_red(card(1, 4)));
    assert!(is_red(card(3, 4)));
    assert!(!is_red(card(0, 4)));
    assert!(!is_red(card(2, 4)));
    assert!(is_king(card(0, 13)));
    assert!(!is_king(card(0, 12)));
    let c = card(2, 7);
    assert!(c.is_face_up());
    let down = c.face_down();
    assert!(!down.is_face_up());
    assert_eq!(down.index(), c);
    assert_eq!(down.face_up(), c);
}

#[test]
fn card_relations() {
    // a red five sits on a black six
    assert!(can_be_placed_on_top_of(card(2, 6), card(1, 5)));
    // not on a red six
    assert!(!can_be_placed_on_top_of(card(1, 6), card(1, 5)));
    // not a black five on a black six
    assert!(!can_be_placed_on_top_of(card(2, 6), card(0, 5)));
    assert!(are_card_ranks_descending(card(0, 6), card(1, 5)));
    assert!(are_card_ranks_ascending(card(0, 6), card(1, 7)));
    assert!(are_card_colors_different(card(0, 6), card(1, 5)));
}

#[test]
fn nothing_fits_on_an_ace() {
    // no card below an Ace: nothing can be laid on rank 1
    for suit in 0..4u8 {
        for other in 0..52u8 {
            assert!(!can_be_placed_on_top_of(card(suit, 1), other));
        }
    }
}

#[test]
fn pretty_string_text() {
    assert_eq!(pretty_string(card(0, 10)), "C10");
    assert_eq!(pretty_string(card(1, 1)), "DA");
    assert_eq!(pretty_string(card(2, 13)), "SK");
    assert_eq!(pretty_string(card(3, 12)), "HQ");
    assert_eq!(pretty_string(0xFF), " ");
}

#[test]
fn deal_is_well_formed() {
    let g = Game::new_seeded(12345);
    assert!(g.validate());
    assert!(g.is_valid_game_state());
    assert_eq!(g.stock.len(), 24);
    assert_eq!(g.waste.len(), 0);
    for c in 0..7 {
        assert_eq!(g.tableaus[c].len(), c + 1);
        // only the top card of each column is face up
        let cards = g.tableaus[c].to_vec();
        for (i, &b) in cards.iter().enumerate() {
            assert_eq!(b.is_face_up(), i == c);
        }
        assert_eq!(g.first_unlocked_idx[c], c as u8);
    }
    for s in 0..4 {
        assert_eq!(g.foundations[s], 0xFF);
    }
    assert_eq!(g.foundation_stack, 0);
}

#[test]
fn same_seed_same_deal() {
    let a = Game::new_seeded(77);
    let b = Game::new_seeded(77);
    assert_eq!(a.compact_state(), b.compact_state());
}

#[test]
fn draw_and_restock_round_trip() {
    // restock then drawing everything restores the waste order
    let waste: Vec<u8> = vec![card(0, 2), card(1, 9), card(2, 5)];
    let mut tabs = full_run(0, 1);
    let mut tabs2 = full_run(1, 0);
    let mut tabs3 = full_run(2, 3);
    let mut tabs4 = full_run(3, 2);
    // take the three waste cards out of the runs
    tabs.retain(|c| !waste.contains(c));
    tabs2.retain(|c| !waste.contains(c));
    tabs3.retain(|c| !waste.contains(c));
    tabs4.retain(|c| !waste.contains(c));
    let g = game_from(
        [&tabs, &tabs2, &tabs3, &tabs4, &[], &[], &[]],
        [0xFF; 4],
        &[],
        &waste,
    );
    let restocked = g.restock();
    assert_eq!(restocked.stock.to_vec(), vec![card(2, 5), card(1, 9), card(0, 2)]);
    assert_eq!(restocked.waste.len(), 0);
    let back = restocked.draw_from_stock(3);
    assert_eq!(back.waste.to_vec(), waste);
    assert_eq!(back.stock.len(), 0);
}

#[test]
fn fingerprint_is_56_bytes_with_delimiters() {
    let g = Game::new_seeded(99);
    let fp = g.compact_state();
    assert_eq!(fp.data.len(), 56);
    // foundations delimiter
    assert!(fp.data[3] >= 128);
    // stock delimiter: 4 foundation bytes then 24 stock bytes
    assert!(fp.data[3 + 24] >= 128);
    // waste is empty: its delimiter lands on the same byte
    assert!(fp.data[3 + 24 + 0] >= 128);
    // the tableau block ends 28 bytes later, on the last byte
    assert!(fp.data[55] >= 128);
}

#[test]
fn fingerprint_ignores_tableau_order() {
    let g = Game::new_seeded(4242);
    let mut g2 = g.duplicate();
    g2.tableaus.swap(0, 1);
    let fu0 = g2.first_unlocked_idx[0];
    g2.first_unlocked_idx[0] = g2.first_unlocked_idx[1];
    g2.first_unlocked_idx[1] = fu0;
    assert_eq!(g.compact_state(), g2.compact_state());
}

#[test]
fn sorting_tableaus_is_idempotent() {
    let g = Game::new_seeded(31415);
    let once = g.sort_tableaus();
    let twice = once.sort_tableaus();
    for c in 0..7 {
        assert_eq!(once.tableaus[c].to_vec(), twice.tableaus[c].to_vec());
    }
}

#[test]
fn empty_tableau_takes_only_kings_from_waste() {
    // a king on the waste may go to the empty column; a queen may not
    let run1 = full_run(0, 1);
    let run2 = full_run(1, 0);
    let run3 = full_run(2, 3);
    let mut run4 = full_run(3, 2);
    // waste holds the hearts king (top) over the spades queen
    let hk = card(3, 13);
    let sq = card(2, 12);
    run4.retain(|&c| c != hk);
    let mut run3b = run3.clone();
    run3b.retain(|&c| c != sq);
    let g = game_from(
        [&run1, &run2, &run3b, &run4, &[], &[], &[]],
        [0xFF; 4],
        &[],
        &[sq, hk],
    );
    let moves = g.valid_moves();
    // the king goes to an empty column
    assert!(moves.iter().any(|m| m.from == CardPosition::Waste
        && matches!(m.to, CardPosition::Tableau(4, 0))));
    // after playing the king, the queen on the waste fits only on it,
    // never on the remaining empty columns
    let after = g.handle_move(&Move {
        from: CardPosition::Waste,
        to: CardPosition::Tableau(4, 0),
    });
    let moves2 = after.valid_moves();
    assert!(!moves2.iter().any(|m| m.from == CardPosition::Waste
        && matches!(m.to, CardPosition::Tableau(5, _))));
    assert!(!moves2.iter().any(|m| m.from == CardPosition::Waste
        && matches!(m.to, CardPosition::Tableau(6, _))));
}

#[test]
fn empty_foundation_takes_only_aces() {
    let g = Game::new_seeded(1);
    // with empty foundations, only rank-1 cards may promote
    for suit in 0..4u8 {
        assert!(g.can_move_card_to_foundation(card(suit, 1)));
        for rank in 2..=13u8 {
            assert!(!g.can_move_card_to_foundation(card(suit, rank)));
        }
    }
}

/// The "trivially won" board: four alternating-color King-to-Ace runs,
/// foundations empty. Every card can be promoted in order.
fn trivially_won_board() -> Game {
    let r1 = full_run(0, 1);
    let r2 = full_run(1, 0);
    let r3 = full_run(2, 3);
    let r4 = full_run(3, 2);
    game_from([&r1, &r2, &r3, &r4, &[], &[], &[]], [0xFF; 4], &[], &[])
}

#[test]
fn trivially_won_board_solves_in_52_moves() {
    let game = trivially_won_board();
    let mut solver = Solver::with_game(game, 0, 5000);
    let won = solver.is_solvable();
    assert!(won.is_some());
    assert!(won.unwrap().is_game_won());
    assert_eq!(solver.moves_made.len(), 52);
}

#[test]
fn one_move_win_promotes_four_kings() {
    // foundations show the four queens; a king tops each of four columns
    let founds = [card(0, 12), card(1, 12), card(2, 12), card(3, 12)];
    let g = game_from(
        [
            &[card(0, 13)],
            &[card(1, 13)],
            &[card(2, 13)],
            &[card(3, 13)],
            &[],
            &[],
            &[],
        ],
        founds,
        &[],
        &[],
    );
    assert!(g.validate());
    let moves = g.valid_moves();
    // all four promotions are offered (beside king moves to empty columns)
    for t in 0..4u8 {
        assert!(moves.iter().any(|m| matches!(
            (m.from, m.to),
            (CardPosition::Tableau(ti, 0), CardPosition::Foundation(_)) if ti == t
        )));
    }
    let mut solver = Solver::with_game(g, 0, 5000);
    match solver.solve() {
        SolveOutcome::Solved(ms) => assert_eq!(ms.len(), 4),
        _ => panic!("expected a solution"),
    }
}

/// The forced-restock board: stock empty, three unplayable waste cards,
/// every column topped by a black card so nothing moves anywhere.
fn forced_restock_board() -> Game {
    // tops: seven black cards of ranks 2,4,6,8 (clubs) and 3,5,7 (spades)
    let tops = [
        card(0, 2),
        card(0, 4),
        card(0, 6),
        card(0, 8),
        card(2, 3),
        card(2, 5),
        card(2, 7),
    ];
    let waste = [card(0, 3), card(2, 9), card(0, 10)];
    let mut rest: Vec<u8> = (0..52u8)
        .filter(|c| !tops.contains(c) && !waste.contains(c))
        .collect();
    // 42 remaining cards: six face-down under each of the seven tops
    let mut tabs: Vec<Vec<u8>> = Vec::new();
    for t in 0..7 {
        let mut col: Vec<u8> = rest.drain(..6).map(face_down).collect();
        col.push(tops[t]);
        tabs.push(col);
    }
    game_from(
        [
            &tabs[0], &tabs[1], &tabs[2], &tabs[3], &tabs[4], &tabs[5], &tabs[6],
        ],
        [0xFF; 4],
        &[],
        &waste,
    )
}

#[test]
fn forced_restock_emits_only_the_restock() {
    let g = forced_restock_board();
    assert!(g.validate());
    let moves = g.valid_moves();
    assert_eq!(moves.len(), 1);
    assert_eq!(
        moves[0],
        Move { from: CardPosition::Waste, to: CardPosition::Stock }
    );
    assert!(Solver::is_game_lost(&moves));
}

#[test]
fn forced_restock_board_is_unsolvable() {
    let g = forced_restock_board();
    let mut solver = Solver::with_game(g, 0, 5000);
    match solver.solve() {
        SolveOutcome::Unsolvable => {}
        _ => panic!("expected exhaustion"),
    }
    // cycling the waste back to the start is recognised as a duplicate
    assert!(solver.culled_states() >= 1);
}

#[test]
fn tight_budget_reports_unknown() {
    let mut solver = Solver::new_seeded(987654321, 1);
    match solver.solve() {
        SolveOutcome::Unknown => {}
        _ => panic!("expected a timeout"),
    }
    assert!(solver.states_visited() > 0);
}

#[test]
fn partial_split_only_when_it_exposes_a_promotion() {
    // column 0: black 9 under red 8 under black 7 (a proper run);
    // column 1 top: red 10 would accept the 9; column 2 top: black 8
    // would accept... nothing, no split is allowed mid-run unless the
    // uncovered card can promote. Foundations are empty, so none can.
    let c9 = card(0, 9);
    let d8 = card(1, 8);
    let s7 = card(2, 7);
    let h10 = card(3, 10);
    let run_a = [c9, d8, s7];
    let used = [c9, d8, s7, h10];
    let mut rest: Vec<u8> = (0..52u8).filter(|c| !used.contains(c)).collect();
    let under_b: Vec<u8> = rest.drain(..1).map(face_down).collect();
    let mut col_b = under_b.clone();
    col_b.push(h10);
    let col_rest: Vec<u8> = rest.drain(..).collect();
    // park every other card in one big stock
    let g = game_from(
        [&run_a, &col_b, &[], &[], &[], &[], &[]],
        [0xFF; 4],
        &col_rest,
        &[],
    );
    assert!(g.validate());
    let moves = g.valid_moves();
    // the whole run may move onto the red 10? no: its bottom is a black 9,
    // which fits the red 10, so the whole-run move is offered
    assert!(moves.iter().any(|m| m.from == CardPosition::Tableau(0, 0)
        && matches!(m.to, CardPosition::Tableau(1, _))));
    // but no mid-run split is offered: splitting at the red 8 or black 7
    // exposes nothing foundation-ready
    assert!(!moves
        .iter()
        .any(|m| matches!(m.from, CardPosition::Tableau(0, k) if k > 0)));
}

#[test]
fn replaying_a_solution_reaches_the_win() {
    let game = trivially_won_board();
    let mut solver = Solver::with_game(game.duplicate(), 0, 5000);
    let moves = match solver.solve() {
        SolveOutcome::Solved(ms) => ms,
        _ => panic!("expected a solution"),
    };
    let mut state = game;
    for mv in &moves {
        assert!(state.validate());
        assert!(state.is_valid_game_state());
        state = state.handle_move(mv);
    }
    assert!(state.is_game_won());
    assert!(state.validate());
}

#[test]
fn foundation_rank_counts_promotions() {
    // promote the club ace and deuce from the waste
    let r2 = full_run(1, 0);
    let r3 = full_run(2, 3);
    let r4 = full_run(3, 2);
    let mut r1 = full_run(0, 1);
    let ca = card(0, 1);
    let c2 = card(0, 2);
    r1.retain(|&c| c != ca && c != c2);
    let g = game_from(
        [&r1, &r2, &r3, &r4, &[], &[], &[]],
        [0xFF; 4],
        &[],
        &[c2, ca],
    );
    let g1 = g.handle_move(&Move {
        from: CardPosition::Waste,
        to: CardPosition::Foundation(0),
    });
    let g2 = g1.handle_move(&Move {
        from: CardPosition::Waste,
        to: CardPosition::Foundation(0),
    });
    assert_eq!(g2.foundations[0], c2);
    assert_eq!(card_rank(g2.foundations[0]), 2);
    // the bitmask records exactly the two promoted clubs
    assert_eq!(g2.foundation_stack.count_ones(), 2);
    assert_eq!(g2.foundation_stack, 0b11);
    assert!(g2.validate());
}

#[test]
fn drawing_moves_the_stock_top_to_the_waste() {
    let g = Game::new_seeded(5150);
    let top = g.stock.at(g.stock.len() - 1);
    let after = g.draw_from_stock(1);
    assert_eq!(after.stock.len(), 23);
    assert_eq!(after.waste.len(), 1);
    assert_eq!(after.waste.at(0), top);
    assert!(after.validate());
}

#[test]
fn unlocked_run_tracks_moves() {
    // lay a red 5 from the waste onto a black 6: the run grows downward
    let c6 = card(0, 6);
    let d5 = card(1, 5);
    let used = [c6, d5];
    let mut rest: Vec<u8> = (0..52u8).filter(|c| !used.contains(c)).collect();
    let under: Vec<u8> = rest.drain(..2).map(face_down).collect();
    let mut col = under.clone();
    col.push(c6);
    let stock: Vec<u8> = rest.drain(..).collect();
    let g = game_from(
        [&col, &[], &[], &[], &[], &[], &[]],
        [0xFF; 4],
        &stock,
        &[d5],
    );
    assert_eq!(g.first_unlocked_idx[0], 2);
    let after = g.handle_move(&Move {
        from: CardPosition::Waste,
        to: CardPosition::Tableau(0, 3),
    });
    assert_eq!(after.first_unlocked_idx[0], 2);
    assert_eq!(after.tableaus[0].len(), 4);
    assert!(after.validate());
}

#[test]
fn fresh_deal_offers_the_draw() {
    let g = Game::new_seeded(2024);
    let moves = g.valid_moves();
    assert!(moves.contains(&Move { from: CardPosition::Stock, to: CardPosition::Waste }));
    assert!(g.can_draw_from_stock(1));
    assert!(g.can_draw_from_stock(24));
    assert!(!g.can_draw_from_stock(25));
}

#[test]
fn solver_counters_start_clean() {
    let solver = Solver::new_seeded(11, 100);
    assert_eq!(solver.game_seed(), 11);
    assert_eq!(solver.culled_states(), 0);
    assert_eq!(solver.game_overs(), 0);
    assert!(solver.states_visited() >= 1);
}

#[test]
fn stack_operations_round_trip() {
    let mut s = CardStack::new();
    assert!(s.is_empty());
    assert_eq!(s.score(), 255);
    s.push(card(0, 7));
    s.push(card(1, 6));
    assert_eq!(s.len(), 2);
    assert_eq!(s.score(), card(0, 7));
    assert_eq!(s.last(), Some(card(1, 6)));
    assert_eq!(s.to_vec(), vec![card(0, 7), card(1, 6)]);
    assert_eq!(s.reversed().to_vec(), vec![card(1, 6), card(0, 7)]);
    let popped = s.pop();
    assert_eq!(popped, card(1, 6));
    assert_eq!(s.len(), 1);
    let mut t = stack_of(&[face_down(card(2, 4))]);
    t.flip_face_up();
    assert_eq!(t.to_vec(), vec![card(2, 4)]);
}

#[test]
fn same_suit_means_the_suit() {
    // two clubs share a suit; a club and a spade do not, though both black
    assert!(are_card_suits_the_same(card(0, 5), card(0, 7)));
    assert!(!are_card_suits_the_same(card(0, 5), card(2, 7)));
    assert!(!are_card_suits_the_same(card(1, 4), card(3, 4)));
    assert!(are_card_suits_the_same(card(3, 1), card(3, 13)));
}

#[test]
fn canonical_order_ignores_the_orientation_bit() {
    // column A: a face-up King of Clubs (byte 12); column B: a face-down
    // deuce of Clubs (byte 65) under a face-up card. By raw byte A would
    // sort first; by card index B (index 1) comes first.
    let col_a = [card(0, 13)];
    let col_b = [face_down(card(0, 2)), card(2, 5)];
    let used = [card(0, 13), card(0, 2), card(2, 5)];
    let stock: Vec<u8> = (0..52u8).filter(|c| !used.contains(c)).collect();
    let g = game_from(
        [&col_a, &col_b, &[], &[], &[], &[], &[]],
        [0xFF; 4],
        &stock,
        &[],
    );
    assert!(g.validate());
    let sorted = g.sort_tableaus();
    assert_eq!(sorted.tableaus[0].to_vec(), col_b.to_vec());
    assert_eq!(sorted.tableaus[1].to_vec(), col_a.to_vec());
    for c in 2..7 {
        assert_eq!(sorted.tableaus[c].len(), 0);
    }
}

#[test]
fn missing_card_is_named() {
    let g = Game::new_seeded(606);
    assert_eq!(g.missing_card(), None);
    // drop the stock's top card: the validator names exactly it
    let mut broken = g.duplicate();
    let lost = broken.stock.pop();
    assert!(!broken.validate());
    assert_eq!(broken.missing_card(), Some(lost));
}

#[test]
fn generated_moves_are_duplicate_free() {
    let g = Game::new_seeded(443);
    let moves = g.valid_moves();
    for i in 0..moves.len() {
        for j in (i + 1)..moves.len() {
            assert_ne!(moves[i], moves[j]);
        }
    }
}

#[test]
fn a_won_frontier_entry_is_returned() {
    // hand the solver a board one promotion from victory: the win must
    // come back, not a timeout, even with no budget
    let founds = [card(0, 13), card(1, 13), card(2, 13), card(3, 12)];
    let g = game_from(
        [&[card(3, 13)], &[], &[], &[], &[], &[], &[]],
        founds,
        &[],
        &[],
    );
    assert!(g.validate());
    let mut solver = Solver::with_game(g, 0, 0);
    let won = solver.is_solvable();
    assert!(won.is_some());
    assert!(won.unwrap().is_game_won());
    assert_eq!(solver.moves_made.len(), 1);
}
