//! The search engine: recursive negamax evaluation of a board with a
//! memoization cache owned by a `Solver` value.

use vstd::prelude::*;

verus! {

use crate::board::BoardState;
use crate::board::legal_move;
use crate::board::chomp_grid;
use crate::board::grid_count;
use crate::board::wf_grid;
use crate::board::is_terminal;
use crate::board::rank;

/// The player to move wins exactly when some legal move leaves the opponent
/// a losing position.  A terminal position (no legal move) is a loss.
pub open spec fn wins(g: Seq<Seq<bool>>) -> bool
    decreases grid_count(g),
    via wins_decreases
{
    exists|x: int, y: int| legal_move(g, x, y) && !wins(chomp_grid(g, x, y))
}

#[via_fn]
proof fn wins_decreases(g: Seq<Seq<bool>>) {
    assert forall|x: int, y: int| #[trigger] legal_move(g, x, y) implies grid_count(
        chomp_grid(g, x, y),
    ) < grid_count(g) by {
        crate::board::lemma_chomp_shrinks(g, x, y);
    }
}

/// The negamax value of the position for the player to move: `1` for a won
/// position, `-1` for a lost one.  Every finite position is decided.
pub open spec fn game_value(g: Seq<Seq<bool>>) -> int {
    if wins(g) {
        1
    } else {
        -1
    }
}

/// What the move `(x, y)` is worth to the player making it: the negation of
/// the value the opponent then faces.
pub open spec fn neg_child_value(g: Seq<Seq<bool>>, x: int, y: int) -> int {
    -game_value(chomp_grid(g, x, y))
}

/// The move the engine recommends on a non-terminal board: a legal move
/// achieving the position's value, with every earlier move (in enumeration
/// rank) strictly worse — the first-of-maximal-value tie-break.
pub open spec fn recommended_move(g: Seq<Seq<bool>>, x: int, y: int) -> bool {
    &&& legal_move(g, x, y)
    &&& neg_child_value(g, x, y) == game_value(g)
    &&& forall|a: int, b: int|
        #[trigger] legal_move(g, a, b) && rank(g, a, b) < rank(g, x, y) ==> neg_child_value(g, a, b)
            < game_value(g)
}

/// Zero-sum consistency of the evaluation: a terminal board is a loss for
/// the player to move, and on any non-terminal board some legal move's
/// negated child value equals the board's own value.
pub proof fn lemma_value_consistency(g: Seq<Seq<bool>>)
    requires
        wf_grid(g),
    ensures
        is_terminal(g) ==> game_value(g) == -1,
        !is_terminal(g) ==> exists|x: int, y: int|
            #[trigger] legal_move(g, x, y) && neg_child_value(g, x, y) == game_value(g),
{
    if is_terminal(g) {
        assert(!wins(g));
    } else {
        let (x0, y0) = choose|x: int, y: int| legal_move(g, x, y);
        if wins(g) {
            let (x1, y1) = choose|x: int, y: int|
                legal_move(g, x, y) && !wins(chomp_grid(g, x, y));
            assert(legal_move(g, x1, y1) && neg_child_value(g, x1, y1) == game_value(g));
        } else {
            assert forall|x: int, y: int| #[trigger] legal_move(g, x, y) implies wins(
                chomp_grid(g, x, y),
            ) by {
                if !wins(chomp_grid(g, x, y)) {
                    assert(wins(g));
                }
            }
            assert(legal_move(g, x0, y0) && neg_child_value(g, x0, y0) == game_value(g));
        }
    }
}

/// The recommended move is uniquely determined by the board: the
/// enumeration-rank tie-break leaves exactly one candidate, so re-evaluation
/// always reports the same move.
pub proof fn lemma_recommended_move_unique(g: Seq<Seq<bool>>, x1: int, y1: int, x2: int, y2: int)
    requires
        wf_grid(g),
        recommended_move(g, x1, y1),
        recommended_move(g, x2, y2),
    ensures
        x1 == x2,
        y1 == y2,
{
    assert(g[x1].len() == g[0].len());
    assert(g[x2].len() == g[0].len());
    if rank(g, x1, y1) < rank(g, x2, y2) {
        assert(neg_child_value(g, x1, y1) < game_value(g));
    } else if rank(g, x2, y2) < rank(g, x1, y1) {
        assert(neg_child_value(g, x2, y2) < game_value(g));
    } else {
        crate::board::lemma_rank_injective(x1, y1, x2, y2, g[0].len() as int);
    }
}

/// Re-evaluation is stable: any two evaluation results that are correct for
/// the same board agree, in the outcome and in the recommended move.
pub proof fn lemma_evaluation_idempotent(
    g: Seq<Seq<bool>>,
    r1: (i32, Option<(usize, usize)>),
    r2: (i32, Option<(usize, usize)>),
)
    requires
        entry_ok(g, r1.0 as int, r1.1),
        entry_ok(g, r2.0 as int, r2.1),
    ensures
        r1 == r2,
{
    if !is_terminal(g) {
        let m1 = r1.1.unwrap();
        let m2 = r2.1.unwrap();
        lemma_recommended_move_unique(g, m1.0 as int, m1.1 as int, m2.0 as int, m2.1 as int);
    }
}

/// A correct cache entry for the grid `g`: the stored value is the grid's
/// game value, and the stored move is absent exactly on terminal grids and
/// otherwise is the recommended move.
pub open spec fn entry_ok(g: Seq<Seq<bool>>, value: int, best: Option<(usize, usize)>) -> bool {
    &&& wf_grid(g)
    &&& value == game_value(g)
    &&& is_terminal(g) ==> best is None
    &&& !is_terminal(g) ==> (best matches Some(m) && recommended_move(g, m.0 as int, m.1 as int))
}

/// The search engine: owns the memoization cache for one solving session.
/// Entries are keyed by structural board equality and, once written, stay
/// correct forever — the game is acyclic, so no entry can go stale.
pub struct Solver {
    cache: Vec<(BoardState, i32, Option<(usize, usize)>)>,
}

impl Solver {
    /// Every cache entry is correct for the board it is keyed by.
    pub closed spec fn inv(&self) -> bool {
        forall|i: int| 0 <= i < self.cache@.len() ==> entry_ok(
            (#[trigger] self.cache@[i]).0@,
            self.cache@[i].1 as int,
            self.cache@[i].2,
        )
    }

    /// The cache holds an entry for the grid `g`.
    pub closed spec fn cached(&self, g: Seq<Seq<bool>>) -> bool {
        exists|i: int| 0 <= i < self.cache@.len() && (#[trigger] self.cache@[i]).0@ == g
    }

    /// A fresh solver with an empty cache.
    pub fn new() -> (s: Solver)
        ensures
            s.inv(),
            forall|g: Seq<Seq<bool>>| !s.cached(g),
    {
        Solver { cache: Vec::new() }
    }

    /// Looks up the stored evaluation for `board`, by exact structural
    /// match, without any recomputation.
    pub fn lookup(&self, board: &BoardState) -> (r: Option<(i32, Option<(usize, usize)>)>)
        requires
            self.inv(),
        ensures
            r is Some <==> self.cached(board@),
            r matches Some(e) ==> entry_ok(board@, e.0 as int, e.1),
    {
        let n = self.cache.len();
        let mut i: usize = 0;
        while i < n
            invariant
                self.inv(),
                n == self.cache@.len(),
                i <= n,
                forall|j: int| 0 <= j < i ==> (#[trigger] self.cache@[j]).0@ != board@,
            decreases n - i,
        {
            if self.cache[i].0 == *board {
                return Some((self.cache[i].1, self.cache[i].2));
            }
            i += 1;
        }
        None
    }

    /// Records a freshly computed evaluation; the board is copied so the
    /// key can never be mutated from outside.
    fn insert(&mut self, board: &BoardState, value: i32, best: Option<(usize, usize)>)
        requires
            old(self).inv(),
            entry_ok(board@, value as int, best),
        ensures
            final(self).inv(),
            final(self).cached(board@),
            forall|g: Seq<Seq<bool>>| old(self).cached(g) ==> final(self).cached(g),
    {
        let ghost prefix = self.cache@;
        let copy = board.duplicate();
        self.cache.push((copy, value, best));
        proof {
            assert forall|i: int| 0 <= i < prefix.len() implies #[trigger] self.cache@[i]
                == prefix[i] by {}
            assert(self.cache@[prefix.len() as int].0@ == board@);
            assert forall|g: Seq<Seq<bool>>| old(self).cached(g) implies self.cached(g) by {
                if old(self).cached(g) {
                    let i = choose|i: int|
                        0 <= i < prefix.len() && (#[trigger] prefix[i]).0@ == g;
                    assert(self.cache@[i].0@ == g);
                }
            }
        }
    }
}

/// What the listed move `e` is worth to the player making it.
spec fn listed_value(g: Seq<Seq<bool>>, e: ((usize, usize), BoardState)) -> int {
    neg_child_value(g, e.0.0 as int, e.0.1 as int)
}

impl BoardState {
    /// Negamax evaluation with memoization: returns the value of the board
    /// for the player to move together with the recommended move, which is
    /// absent exactly on terminal boards.  The result is recorded in the
    /// solver's cache; earlier cache entries are kept.
    pub fn minimax(&self, solver: &mut Solver) -> (r: (i32, Option<(usize, usize)>))
        requires
            wf_grid(self@),
            old(solver).inv(),
        ensures
            final(solver).inv(),
            final(solver).cached(self@),
            forall|g: Seq<Seq<bool>>| old(solver).cached(g) ==> final(solver).cached(g),
            entry_ok(self@, r.0 as int, r.1),
        decreases grid_count(self@),
    {
        if let Some(e) = solver.lookup(self) {
            return e;
        }
        let ws = self.win_state();
        if ws.ended() {
            proof {
                lemma_value_consistency(self@);
            }
            solver.insert(self, -1, None);
            return (-1, None);
        }
        let ghost g = self@;
        let mvs = self.moves();
        proof {
            lemma_value_consistency(g);
            let (x0, y0) = choose|x: int, y: int|
                #[trigger] legal_move(g, x, y) && neg_child_value(g, x, y) == game_value(g);
            assert(crate::board::move_listed(mvs@, x0, y0));
        }
        let n = mvs.len();
        let mut best_value: i32 = -2;
        let mut best_move: Option<(usize, usize)> = None;
        let mut i: usize = 0;
        while i < n
            invariant
                wf_grid(g),
                g == self@,
                !is_terminal(g),
                solver.inv(),
                forall|gg: Seq<Seq<bool>>| old(solver).cached(gg) ==> solver.cached(gg),
                n == mvs@.len(),
                i <= n,
                n > 0,
                forall|k: int| 0 <= k < n ==> legal_move(
                    g,
                    (#[trigger] mvs@[k]).0.0 as int,
                    mvs@[k].0.1 as int,
                ),
                forall|k: int| 0 <= k < n ==> (#[trigger] mvs@[k]).1@ == chomp_grid(
                    g,
                    mvs@[k].0.0 as int,
                    mvs@[k].0.1 as int,
                ),
                forall|x: int, y: int| #[trigger] legal_move(g, x, y)
                    ==> crate::board::move_listed(mvs@, x, y),
                forall|k: int, l: int|
                    #![trigger mvs@[k], mvs@[l]]
                    0 <= k < l < n ==> rank(g, mvs@[k].0.0 as int, mvs@[k].0.1 as int) < rank(
                        g,
                        mvs@[l].0.0 as int,
                        mvs@[l].0.1 as int,
                    ),
                i == 0 ==> best_value == -2 && best_move is None,
                i > 0 ==> (best_value == 1 || best_value == -1),
                (best_value == 1) <==> exists|j: int|
                    0 <= j < i && listed_value(g, #[trigger] mvs@[j]) == 1,
                forall|j: int| 0 <= j < i ==> listed_value(g, #[trigger] mvs@[j]) <= best_value,
                i > 0 ==> exists|j0: int|
                    0 <= j0 < i && best_move == Some((#[trigger] mvs@[j0]).0) && listed_value(
                        g,
                        mvs@[j0],
                    ) == best_value && (forall|j: int|
                        0 <= j < j0 ==> listed_value(g, #[trigger] mvs@[j]) < best_value),
            decreases n - i,
        {
            let mv = mvs[i].0;
            proof {
                assert(mvs@[i as int].0 == mv);
                assert(legal_move(g, mv.0 as int, mv.1 as int));
                crate::board::lemma_chomp_wf(g, mv.0 as int, mv.1 as int);
                crate::board::lemma_chomp_shrinks(g, mv.0 as int, mv.1 as int);
            }
            let (ev, _best_of_child) = mvs[i].1.minimax(solver);
            proof {
                assert(ev as int == game_value(chomp_grid(g, mv.0 as int, mv.1 as int)));
            }
            let eval: i32 = -ev;
            proof {
                assert(eval as int == listed_value(g, mvs@[i as int]));
            }
            if eval > best_value {
                best_value = eval;
                best_move = Some(mv);
                proof {
                    assert(0 <= i < i + 1 && best_move == Some((mvs@[i as int]).0) && listed_value(
                        g,
                        mvs@[i as int],
                    ) == best_value && (forall|j: int|
                        0 <= j < i ==> listed_value(g, #[trigger] mvs@[j]) < best_value));
                }
            }
            i += 1;
        }
        proof {
            let gv = game_value(g);
            let (x0, y0) = choose|x: int, y: int|
                #[trigger] legal_move(g, x, y) && neg_child_value(g, x, y) == game_value(g);
            assert(crate::board::move_listed(mvs@, x0, y0));
            let iw = choose|k: int|
                0 <= k < mvs@.len() && (#[trigger] mvs@[k]).0.0 as int == x0 && mvs@[k].0.1 as int
                    == y0;
            assert(listed_value(g, mvs@[iw]) == gv);
            if wins(g) {
                assert(best_value == 1);
            } else {
                assert forall|j: int| 0 <= j < n implies listed_value(g, #[trigger] mvs@[j])
                    == -1 by {
                    let a = mvs@[j].0.0 as int;
                    let b = mvs@[j].0.1 as int;
                    if !wins(chomp_grid(g, a, b)) {
                        assert(legal_move(g, a, b) && !wins(chomp_grid(g, a, b)));
                        assert(wins(g));
                    }
                }
                assert(listed_value(g, mvs@[0]) == -1);
                assert(best_value == -1);
            }
            assert(best_value as int == gv);
            let j0 = choose|j0: int|
                0 <= j0 < n && best_move == Some((#[trigger] mvs@[j0]).0) && listed_value(
                    g,
                    mvs@[j0],
                ) == best_value && (forall|j: int|
                    0 <= j < j0 ==> listed_value(g, #[trigger] mvs@[j]) < best_value);
            let m = mvs@[j0].0;
            assert forall|a: int, b: int|
                #[trigger] legal_move(g, a, b) && rank(g, a, b) < rank(g, m.0 as int, m.1 as int)
                implies neg_child_value(g, a, b) < gv by {
                assert(crate::board::move_listed(mvs@, a, b));
                let j = choose|k: int|
                    0 <= k < mvs@.len() && (#[trigger] mvs@[k]).0.0 as int == a && mvs@[k].0.1 as int
                        == b;
                if j >= j0 {
                    if j == j0 {
                        assert(rank(g, a, b) == rank(g, m.0 as int, m.1 as int));
                    } else {
                        assert(rank(g, m.0 as int, m.1 as int) < rank(g, a, b));
                    }
                    assert(false);
                }
                assert(listed_value(g, mvs@[j]) < best_value);
            }
            assert(recommended_move(g, m.0 as int, m.1 as int));
            assert(entry_ok(g, best_value as int, best_move));
        }
        solver.insert(self, best_value, best_move);
        (best_value, best_move)
    }
}

} // verus!
