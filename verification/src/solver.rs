//! The search driver: best-first graph search over game states.
//!
//! The frontier holds, with every state, the move path that reached it
//! from the original deal; the driver always expands the highest-scoring
//! state (ties going to the most recently pushed), drops successors whose
//! fingerprint was seen before, and stops on a win, on an exhausted
//! frontier, or when the wall-clock budget runs out. A returned win is
//! proved genuine: replaying the returned path from the original deal is
//! legal throughout and ends in the returned, won state.
use vstd::prelude::*;
use std::collections::HashSet;
use std::time::Instant;
use crate::game::{Game, GameView, wf, won_spec, found_rank};
use crate::moves::{Move, CardPosition, emitted, lemma_emitted_legal};
use crate::mutate::{legal_spec, apply_spec};
use crate::encode::GameCompact;
use crate::deal::{fresh_deal_shape, deck_of, dealt_col};

verus! {

#[verifier::external_type_specification]
#[verifier::external_body]
pub struct ExInstant(Instant);

/// Relies on `Instant::now`: a reading of the monotonic clock. What it
/// reads depends on the moment, so nothing is promised.
#[verifier::external_body]
fn clock_now() -> Instant {
    Instant::now()
}

/// Relies on `Instant::elapsed` and `Duration::as_millis`: how long ago
/// `start` was read, in milliseconds. The clock decides; nothing is
/// promised.
#[verifier::external_body]
fn clock_elapsed_ms(start: &Instant) -> u64 {
    start.elapsed().as_millis() as u64
}

/// The state a sequence of moves reaches from `v` (the first `n` of
/// them).
pub open spec fn replay_spec(v: GameView, moves: Seq<Move>, n: int) -> GameView
    decreases n,
{
    if n <= 0 {
        v
    } else {
        apply_spec(replay_spec(v, moves, n - 1), moves[n - 1])
    }
}

/// Every one of the first `n` moves applies to the state the ones before
/// it reached.
pub open spec fn replay_legal(v: GameView, moves: Seq<Move>, n: int) -> bool
    decreases n,
{
    if n <= 0 {
        true
    } else {
        replay_legal(v, moves, n - 1) && legal_spec(replay_spec(v, moves, n - 1), moves[n - 1])
    }
}

/// Replaying reads only the moves it is given: equal prefixes reach the
/// same state.
pub proof fn lemma_replay_prefix(v: GameView, a: Seq<Move>, b: Seq<Move>, n: int)
    requires
        0 <= n <= a.len(),
        n <= b.len(),
        forall|w: int| 0 <= w < n ==> a[w] == b[w],
    ensures
        replay_spec(v, a, n) == replay_spec(v, b, n),
        replay_legal(v, a, n) == replay_legal(v, b, n),
    decreases n,
{
    if n > 0 {
        lemma_replay_prefix(v, a, b, n - 1);
    }
}

/// A legal replay only visits well-formed states: the state invariant
/// carries from the deal to everything reachable.
pub proof fn lemma_replay_wf(v: GameView, moves: Seq<Move>, n: int)
    requires
        wf(v),
        0 <= n <= moves.len(),
        replay_legal(v, moves, n),
    ensures
        wf(replay_spec(v, moves, n)),
    decreases n,
{
    if n > 0 {
        lemma_replay_wf(v, moves, n - 1);
        crate::mutate::lemma_apply_wf(replay_spec(v, moves, n - 1), moves[n - 1]);
    }
}

/// One frontier entry: a reached state and the path that reached it.
pub struct FrontierEntry {
    pub path: Vec<Move>,
    pub game: Game,
}

/// The entry's state really is where its path leads from the original
/// deal, by legal moves only.
pub open spec fn entry_ok(orig: GameView, e: FrontierEntry) -> bool {
    &&& wf(e.game@)
    &&& replay_legal(orig, e.path@, e.path@.len() as int)
    &&& replay_spec(orig, e.path@, e.path@.len() as int) == e.game@
}

pub struct Solver {
    pub original_game: Game,
    pub visited_games_states: HashSet<GameCompact>,
    pub states_to_visit: Vec<FrontierEntry>,
    pub moves_made: Vec<Move>,
    pub culled_state_count: usize,
    pub game_overs_reached: usize,
    pub seed: u32,
    pub budget_ms: u64,
    pub timed_out: bool,
}

/// The frontier as the constructor leaves it: one entry per emitted move
/// of the starting state, each carrying that one move as its path and the
/// successor it produces, and no move twice.
pub open spec fn frontier_initialized(s: &Solver) -> bool {
    &&& forall|i: int|
        0 <= i < s.states_to_visit@.len() ==> {
            &&& (#[trigger] s.states_to_visit@[i]).path@.len() == 1
            &&& emitted(s.original_game@, s.states_to_visit@[i].path@[0])
            &&& s.states_to_visit@[i].game@ == apply_spec(
                s.original_game@,
                s.states_to_visit@[i].path@[0],
            )
        }
    &&& forall|m: Move|
        #[trigger] emitted(s.original_game@, m) ==> exists|i: int|
            0 <= i < s.states_to_visit@.len() && (#[trigger] s.states_to_visit@[i]).path@[0] == m
    &&& forall|i: int, j: int|
        0 <= i < j < s.states_to_visit@.len() ==> (#[trigger] s.states_to_visit@[i]).path@[0] != (
        #[trigger] s.states_to_visit@[j]).path@[0]
}

/// Some frontier entry is already a won state.
pub open spec fn frontier_has_won(entries: Seq<FrontierEntry>) -> bool {
    exists|i: int| 0 <= i < entries.len() && won_spec((#[trigger] entries[i]).game@)
}

/// The score the driver ranks an entry by: how many cards its state has
/// promoted.
pub open spec fn entry_score(e: FrontierEntry) -> int {
    found_rank(e.game@, 0) + found_rank(e.game@, 1) + found_rank(e.game@, 2) + found_rank(
        e.game@,
        3,
    )
}

/// A solver at rest: nothing replayed, nothing counted, no timeout seen.
pub open spec fn counters_clean(s: &Solver) -> bool {
    &&& s.moves_made@.len() == 0
    &&& s.culled_state_count == 0
    &&& s.game_overs_reached == 0
    &&& !s.timed_out
}

/// The solver's invariant: the deal is a well-formed state and every
/// frontier entry is reachable from it by its own path.
pub open spec fn solver_ok(s: &Solver) -> bool {
    &&& wf(s.original_game@)
    &&& forall|i: int|
        0 <= i < s.states_to_visit@.len() ==> entry_ok(
            s.original_game@,
            #[trigger] s.states_to_visit@[i],
        )
}

/// What a search may report: a winning move list, a proof of exhaustion,
/// or that the budget ran out first.
pub enum SolveOutcome {
    Solved(Vec<Move>),
    Unsolvable,
    Unknown,
}

/// A faithful copy of a move list.
fn clone_moves(v: &Vec<Move>) -> (r: Vec<Move>)
    ensures
        r@ == v@,
{
    let mut r: Vec<Move> = Vec::new();
    let mut i: usize = 0;
    while i < v.len()
        invariant
            i <= v@.len(),
            r@ == v@.take(i as int),
        decreases v@.len() - i,
    {
        r.push(v[i]);
        proof {
            assert(v@.take(i + 1) =~= v@.take(i as int).push(v@[i as int]));
        }
        i += 1;
    }
    proof {
        assert(v@.take(v@.len() as int) =~= v@);
    }
    r
}

impl Solver {
    /// A solver over a randomly dealt game, its first expansions already
    /// on the frontier, with the default five-second budget. Which deal
    /// comes up is chance; its shape holds of every outcome.
    pub fn new() -> (s: Solver)
        ensures
            solver_ok(&s),
            frontier_initialized(&s),
            counters_clean(&s),
            s.budget_ms == 5000,
            fresh_deal_shape(s.original_game@),
    {
        let seed = Game::pick_seed();
        Solver::new_seeded(seed, 5000)
    }

    /// A solver over the game the given seed deals: the deal it searches
    /// is a function of the seed alone.
    pub fn new_seeded(seed: u32, budget_ms: u64) -> (s: Solver)
        ensures
            solver_ok(&s),
            frontier_initialized(&s),
            counters_clean(&s),
            s.seed == seed,
            s.budget_ms == budget_ms,
            fresh_deal_shape(s.original_game@),
            s.original_game@.stock == deck_of(seed).take(24),
            forall|c: int|
                0 <= c < 7 ==> #[trigger] s.original_game@.tableaus[c] == dealt_col(
                    deck_of(seed),
                    c,
                    c + 1,
                ),
    {
        Solver::with_game(Game::new_seeded(seed), seed, budget_ms)
    }

    /// A solver over a given starting state.
    #[verifier::rlimit(80)]
    pub fn with_game(original_game: Game, seed: u32, budget_ms: u64) -> (s: Solver)
        requires
            wf(original_game@),
        ensures
            solver_ok(&s),
            frontier_initialized(&s),
            counters_clean(&s),
            s.original_game@ == original_game@,
            s.seed == seed,
            s.budget_ms == budget_ms,
    {
        let mut visited_games_states: HashSet<GameCompact> = HashSet::new();
        visited_games_states.insert(original_game.compact_state());
        let mut states_to_visit: Vec<FrontierEntry> = Vec::new();
        let valid_moves = original_game.valid_moves();
        let mut i: usize = 0;
        while i < valid_moves.len()
            invariant
                wf(original_game@),
                i <= valid_moves@.len(),
                forall|m: Move| #[trigger] valid_moves@.contains(m) <==> emitted(original_game@, m),
                valid_moves@.no_duplicates(),
                states_to_visit@.len() == i,
                forall|w: int|
                    0 <= w < i ==> (#[trigger] states_to_visit@[w]).path@ =~= seq![
                        valid_moves@[w],
                    ],
                forall|w: int|
                    0 <= w < i ==> (#[trigger] states_to_visit@[w]).game@ == apply_spec(
                        original_game@,
                        valid_moves@[w],
                    ),
                forall|w: int|
                    0 <= w < states_to_visit@.len() ==> entry_ok(
                        original_game@,
                        #[trigger] states_to_visit@[w],
                    ),
            decreases valid_moves@.len() - i,
        {
            let mv = valid_moves[i];
            proof {
                assert(valid_moves@.contains(mv));
                lemma_emitted_legal(original_game@, mv);
            }
            let next = original_game.handle_move(&mv);
            let mut path: Vec<Move> = Vec::new();
            path.push(mv);
            proof {
                assert(path@ =~= Seq::<Move>::empty().push(mv));
                assert(replay_spec(original_game@, path@, 0) == original_game@);
                assert(path@[0] == mv);
                assert(replay_spec(original_game@, path@, 1) == apply_spec(original_game@, mv));
                assert(replay_legal(original_game@, path@, 0));
                assert(legal_spec(original_game@, mv));
                assert(replay_legal(original_game@, path@, 1));
            }
            states_to_visit.push(FrontierEntry { path, game: next });
            i += 1;
        }
        let s = Solver {
            original_game,
            visited_games_states,
            states_to_visit,
            moves_made: Vec::new(),
            culled_state_count: 0,
            game_overs_reached: 0,
            seed,
            budget_ms,
            timed_out: false,
        };
        proof {
            assert(frontier_initialized(&s)) by {
                assert(s.states_to_visit@ == states_to_visit@);
                assert(forall|w: int|
                    0 <= w < valid_moves@.len() ==> #[trigger] valid_moves@.contains(
                        valid_moves@[w],
                    ));
                assert forall|i: int| 0 <= i < s.states_to_visit@.len() implies (
                #[trigger] s.states_to_visit@[i]).path@.len() == 1 by {
                    assert(states_to_visit@[i].path@ =~= seq![valid_moves@[i]]);
                }
                assert forall|i: int| 0 <= i < s.states_to_visit@.len() implies emitted(
                    s.original_game@,
                    (#[trigger] s.states_to_visit@[i]).path@[0],
                ) by {
                    assert(states_to_visit@[i].path@ =~= seq![valid_moves@[i]]);
                    assert(states_to_visit@[i].path@[0] == valid_moves@[i]);
                    assert(valid_moves@.contains(valid_moves@[i]));
                }
                assert forall|i: int| 0 <= i < s.states_to_visit@.len() implies (
                #[trigger] s.states_to_visit@[i]).game@ == apply_spec(
                    s.original_game@,
                    s.states_to_visit@[i].path@[0],
                ) by {
                    assert(states_to_visit@[i].path@[0] == valid_moves@[i]);
                }
                assert forall|i: int, j: int|
                    0 <= i < j < s.states_to_visit@.len() implies (
                #[trigger] s.states_to_visit@[i]).path@[0] != (
                #[trigger] s.states_to_visit@[j]).path@[0] by {
                    assert(states_to_visit@[i].path@[0] == valid_moves@[i]);
                    assert(states_to_visit@[j].path@[0] == valid_moves@[j]);
                    assert(valid_moves@[i] != valid_moves@[j]);
                }
                assert forall|m: Move| #[trigger] emitted(
                    s.original_game@,
                    m,
                ) implies exists|i: int|
                    0 <= i < s.states_to_visit@.len() && (#[trigger] s.states_to_visit@[i]).path@[0]
                        == m by {
                    assert(valid_moves@.contains(m));
                    let w = choose|w: int| 0 <= w < valid_moves@.len() && valid_moves@[w] == m;
                    assert(s.states_to_visit@[w].path@[0] == m);
                }
            }
        }
        s
    }

    /// The seed whose deal this solver searches.
    pub fn game_seed(&self) -> (r: u32)
        ensures
            r == self.seed,
    {
        self.seed
    }

    /// A state is dead when the generator offers nothing but the restock:
    /// drawing through the waste again can reach nothing new.
    pub fn is_game_lost(valid_moves: &Vec<Move>) -> (r: bool)
        ensures
            r == (valid_moves@.len() == 1 && valid_moves@[0] == (Move {
                from: CardPosition::Waste,
                to: CardPosition::Stock,
            })),
    {
        if valid_moves.len() == 1 {
            let only = valid_moves[0];
            only == (Move { from: CardPosition::Waste, to: CardPosition::Stock })
        } else {
            false
        }
    }

    /// How many states the search has marked visited: the size of the
    /// visited set, under vstd's name for it. (Its relation to the set's
    /// abstract view is conditional on a key model that a derived hash
    /// cannot claim, so no more can be said of it here.)
    pub fn states_visited(&self) -> (r: usize)
        ensures
            r == self.visited_games_states.len(),
    {
        self.visited_games_states.len()
    }

    /// How many generated states were dropped as duplicates.
    pub fn culled_states(&self) -> (r: usize)
        ensures
            r == self.culled_state_count,
    {
        self.culled_state_count
    }

    /// How many dead states (restock-only) the search reached.
    pub fn game_overs(&self) -> (r: usize)
        ensures
            r == self.game_overs_reached,
    {
        self.game_overs_reached
    }

    /// How many states wait on the frontier.
    pub fn frontier_len(&self) -> (r: usize)
        ensures
            r == self.states_to_visit@.len(),
    {
        self.states_to_visit.len()
    }

    /// Search for a win. `Some(g)` is a proved result: `g` is won, and
    /// replaying `moves_made` from the original deal is legal throughout
    /// and ends exactly in `g`. `None` means the frontier was exhausted
    /// or the budget ran out (`timed_out` tells which).
    #[verifier::rlimit(80)]
    #[verifier::spinoff_prover]
    pub fn is_solvable(&mut self) -> (r: Option<Game>)
        requires
            solver_ok(old(self)),
        ensures
            solver_ok(final(self)),
            final(self).original_game@ == old(self).original_game@,
            r is None && !final(self).timed_out ==> final(self).states_to_visit@.len() == 0,
            frontier_has_won(old(self).states_to_visit@) ==> r is Some,
            final(self).culled_state_count >= old(self).culled_state_count,
            final(self).game_overs_reached >= old(self).game_overs_reached,
            match r {
                Some(g) => {
                    &&& wf(g@)
                    &&& won_spec(g@)
                    &&& replay_legal(
                        final(self).original_game@,
                        final(self).moves_made@,
                        final(self).moves_made@.len() as int,
                    )
                    &&& replay_spec(
                        final(self).original_game@,
                        final(self).moves_made@,
                        final(self).moves_made@.len() as int,
                    ) == g@
                },
                None => true,
            },
    {
        self.timed_out = false;
        let cutoff_time = self.budget_ms;
        let timer = clock_now();
        let mut fuel: u64 = u64::MAX;
        loop
            invariant
                solver_ok(self),
                self.original_game@ == old(self).original_game@,
                self.budget_ms == old(self).budget_ms,
                !self.timed_out,
                self.culled_state_count >= old(self).culled_state_count,
                self.game_overs_reached >= old(self).game_overs_reached,
                fuel == u64::MAX ==> self.states_to_visit@ == old(self).states_to_visit@,
                fuel < u64::MAX ==> !frontier_has_won(old(self).states_to_visit@),
            ensures
                solver_ok(self),
                self.original_game@ == old(self).original_game@,
                self.states_to_visit@.len() == 0,
                !frontier_has_won(old(self).states_to_visit@),
                self.culled_state_count >= old(self).culled_state_count,
                self.game_overs_reached >= old(self).game_overs_reached,
            decreases fuel,
        {
            if self.states_to_visit.is_empty() {
                break;
            }
            if fuel == 0 {
                self.timed_out = true;
                return None;
            }
            let ghost first_iter = fuel == u64::MAX;
            fuel = fuel - 1;
            // pick the best-scoring entry; on ties the latest pushed wins
            let ghost pre_frontier = self.states_to_visit@;
            let mut best: usize = 0;
            let mut best_score: usize = 0;
            let mut idx: usize = 0;
            while idx < self.states_to_visit.len()
                invariant
                    solver_ok(self),
                    !self.timed_out,
                    self.culled_state_count >= old(self).culled_state_count,
                    self.game_overs_reached >= old(self).game_overs_reached,
                    self.states_to_visit@.len() > 0,
                    pre_frontier == self.states_to_visit@,
                    idx <= self.states_to_visit@.len(),
                    best < self.states_to_visit@.len(),
                    idx == 0 ==> best == 0 && best_score == 0,
                    idx > 0 ==> best_score == entry_score(self.states_to_visit@[best as int]),
                    forall|w: int|
                        0 <= w < idx ==> entry_score(#[trigger] self.states_to_visit@[w])
                            <= best_score,
                decreases self.states_to_visit@.len() - idx,
            {
                proof {
                    assert(entry_ok(self.original_game@, self.states_to_visit@[idx as int]));
                }
                let sc = self.states_to_visit[idx].game.foundation_score();
                if sc >= best_score {
                    best = idx;
                    best_score = sc;
                }
                idx += 1;
            }
            proof {
                assert(entry_ok(self.original_game@, pre_frontier[best as int]));
            }
            let entry = self.states_to_visit.remove(best);
            let FrontierEntry { path, game: new_state } = entry;
            proof {
                assert(forall|w: int|
                    0 <= w < self.states_to_visit@.len() ==> entry_ok(
                        self.original_game@,
                        #[trigger] self.states_to_visit@[w],
                    ));
            }
            let won = new_state.is_game_won();
            if won {
                self.moves_made = path;
                return Some(new_state);
            }
            proof {
                // the popped entry scored highest, so a won entry (which
                // scores the full 52) would have been popped and returned
                assert(!frontier_has_won(old(self).states_to_visit@)) by {
                    if first_iter {
                        if frontier_has_won(pre_frontier) {
                            let wi = choose|i: int|
                                0 <= i < pre_frontier.len() && won_spec(
                                    (#[trigger] pre_frontier[i]).game@,
                                );
                            assert(entry_score(pre_frontier[wi]) == 52);
                            assert(entry_score(pre_frontier[wi]) <= best_score);
                            crate::mutate::lemma_wf_lens(pre_frontier[best as int].game@);
                            assert(entry_score(pre_frontier[best as int]) <= 52);
                            assert(best_score == 52);
                            assert(won_spec(new_state@));
                        }
                    }
                }
            }
            self.moves_made = clone_moves(&path);
            let fingerprint = new_state.compact_state();
            self.visited_games_states.insert(fingerprint);
            let valid_moves = new_state.valid_moves();
            if !Solver::is_game_lost(&valid_moves) {
                let mut i: usize = 0;
                while i < valid_moves.len()
                    invariant
                        solver_ok(self),
                        !self.timed_out,
                        !frontier_has_won(old(self).states_to_visit@),
                        self.culled_state_count >= old(self).culled_state_count,
                        self.game_overs_reached >= old(self).game_overs_reached,
                        self.original_game@ == old(self).original_game@,
                        self.budget_ms == old(self).budget_ms,
                        i <= valid_moves@.len(),
                        wf(new_state@),
                        forall|m: Move|
                            #[trigger] valid_moves@.contains(m) <==> emitted(new_state@, m),
                        replay_legal(self.original_game@, path@, path@.len() as int),
                        replay_spec(self.original_game@, path@, path@.len() as int)
                            == new_state@,
                    decreases valid_moves@.len() - i,
                {
                    let mv = valid_moves[i];
                    proof {
                        assert(valid_moves@.contains(mv));
                        lemma_emitted_legal(new_state@, mv);
                    }
                    let new_state_to_visit = new_state.handle_move(&mv);
                    let next_fingerprint = new_state_to_visit.compact_state();
                    if !self.visited_games_states.contains(&next_fingerprint) {
                        let mut np = clone_moves(&path);
                        np.push(mv);
                        proof {
                            let orig = self.original_game@;
                            let n = path@.len() as int;
                            assert(np@.len() == n + 1);
                            assert(np@[n] == mv);
                            lemma_replay_prefix(orig, np@, path@, n);
                            assert(replay_spec(orig, np@, n + 1) == apply_spec(new_state@, mv));
                            assert(replay_legal(orig, np@, n + 1));
                        }
                        self.states_to_visit.push(
                            FrontierEntry { path: np, game: new_state_to_visit },
                        );
                    } else {
                        if self.culled_state_count < usize::MAX {
                            self.culled_state_count = self.culled_state_count + 1;
                        }
                    }
                    i += 1;
                }
            } else {
                if self.game_overs_reached < usize::MAX {
                    self.game_overs_reached = self.game_overs_reached + 1;
                }
            }
            let elapsed_time = clock_elapsed_ms(&timer);
            if elapsed_time >= cutoff_time {
                self.timed_out = true;
                return None;
            }
        }
        None
    }
}

} // verus!

verus! {

impl Solver {
    /// Run the search and name the outcome: a winning move list (proved
    /// to replay from the deal to a won state), exhaustion of the whole
    /// reachable space, or an exceeded budget.
    pub fn solve(&mut self) -> (r: SolveOutcome)
        requires
            solver_ok(old(self)),
        ensures
            solver_ok(final(self)),
            final(self).original_game@ == old(self).original_game@,
            frontier_has_won(old(self).states_to_visit@) ==> r matches SolveOutcome::Solved(_),
            match r {
                SolveOutcome::Solved(moves) => {
                    &&& replay_legal(
                        final(self).original_game@,
                        moves@,
                        moves@.len() as int,
                    )
                    &&& won_spec(
                        replay_spec(final(self).original_game@, moves@, moves@.len() as int),
                    )
                    &&& wf(replay_spec(final(self).original_game@, moves@, moves@.len() as int))
                },
                SolveOutcome::Unsolvable => !final(self).timed_out
                    && final(self).states_to_visit@.len() == 0,
                SolveOutcome::Unknown => final(self).timed_out,
            },
    {
        let r = self.is_solvable();
        match r {
            Some(_winner) => SolveOutcome::Solved(clone_moves(&self.moves_made)),
            None => {
                if self.timed_out {
                    SolveOutcome::Unknown
                } else {
                    SolveOutcome::Unsolvable
                }
            },
        }
    }
}

} // verus!
