//! The board model: a rectangular grid of cells, move legality, and the
//! "chomp" removal rule.  The mathematical model of a board is a
//! `Seq<Seq<bool>>` of columns — the outer index is `x`, the inner index is
//! `y` — where `true` means a piece is still present.

use vstd::prelude::*;

verus! {

/// The errors the board model can report: a degenerate dimension at
/// construction, or a move that targets a missing, poisoned, or
/// out-of-range cell.
#[derive(Clone, Copy, Debug, PartialEq, Eq, Structural)]
pub enum ChompError {
    InvalidDimension,
    InvalidMove,
}

/// What a scan of the board says about the player to move: `Loss` when only
/// the poisoned piece remains, `NoWinner` while the game is still open.
#[derive(Clone, Copy, Debug, PartialEq, Eq, Structural)]
pub enum WinState {
    Loss,
    NoWinner,
}

impl WinState {
    /// The game has ended exactly when the scan reported a loss.
    pub fn ended(&self) -> (r: bool)
        ensures
            r == (*self is Loss),
    {
        match self {
            WinState::NoWinner => false,
            WinState::Loss => true,
        }
    }
}

/// The numeric negamax value of a scan result: `-1` for a loss of the player
/// to move, `0` while undetermined.
impl core::convert::From<WinState> for i32 {
    fn from(value: WinState) -> (r: i32) {
        match value {
            WinState::Loss => -1,
            WinState::NoWinner => 0,
        }
    }
}

impl vstd::std_specs::convert::FromSpecImpl<WinState> for i32 {
    open spec fn obeys_from_spec() -> bool {
        true
    }

    open spec fn from_spec(value: WinState) -> i32 {
        if value is Loss {
            -1i32
        } else {
            0i32
        }
    }
}

/// A well-formed grid is non-empty in both dimensions and rectangular:
/// every column has the height of the first.
pub open spec fn wf_grid(g: Seq<Seq<bool>>) -> bool {
    &&& g.len() > 0
    &&& g[0].len() > 0
    &&& forall|x: int| 0 <= x < g.len() ==> (#[trigger] g[x]).len() == g[0].len()
}

/// The coordinate `(x, y)` addresses a cell of the grid.
pub open spec fn in_grid(g: Seq<Seq<bool>>, x: int, y: int) -> bool {
    0 <= x < g.len() && 0 <= y < g[x].len()
}

/// A move is legal when it targets a present piece other than the poisoned
/// cell at the origin.
pub open spec fn legal_move(g: Seq<Seq<bool>>, x: int, y: int) -> bool {
    in_grid(g, x, y) && g[x][y] && !(x == 0 && y == 0)
}

/// The grid after chomping at `(x, y)`: every cell at or beyond the target
/// in both dimensions is removed, all others are unchanged.
pub open spec fn chomp_grid(g: Seq<Seq<bool>>, x: int, y: int) -> Seq<Seq<bool>> {
    Seq::new(g.len(), |j: int| Seq::new(g[j].len(), |k: int| g[j][k] && !(j >= x && k >= y)))
}

/// A terminal position admits no legal move: at most the poisoned piece
/// remains.
pub open spec fn is_terminal(g: Seq<Seq<bool>>) -> bool {
    forall|x: int, y: int| !(#[trigger] legal_move(g, x, y))
}

/// The fully stocked grid of the given dimensions.
pub open spec fn full_grid(w: int, h: int) -> Seq<Seq<bool>> {
    Seq::new(w as nat, |x: int| Seq::new(h as nat, |y: int| true))
}

/// The position of `(x, y)` in enumeration order: `x` outer, `y` inner.
pub open spec fn rank(g: Seq<Seq<bool>>, x: int, y: int) -> int {
    x * g[0].len() + y
}

/// How many pieces a single column still holds.
pub open spec fn col_count(c: Seq<bool>) -> nat
    decreases c.len(),
{
    if c.len() == 0 {
        0
    } else {
        col_count(c.drop_last()) + (if c.last() {
            1nat
        } else {
            0nat
        })
    }
}

/// How many pieces the whole grid still holds.
pub open spec fn grid_count(g: Seq<Seq<bool>>) -> nat
    decreases g.len(),
{
    if g.len() == 0 {
        0
    } else {
        grid_count(g.drop_last()) + col_count(g.last())
    }
}

proof fn lemma_col_count_mono(a: Seq<bool>, b: Seq<bool>)
    requires
        a.len() == b.len(),
        forall|k: int| 0 <= k < a.len() && a[k] ==> b[k],
    ensures
        col_count(a) <= col_count(b),
    decreases a.len(),
{
    if a.len() > 0 {
        assert forall|k: int| 0 <= k < a.drop_last().len() && a.drop_last()[k] implies b.drop_last()[k] by {
            assert(a.drop_last()[k] == a[k]);
            assert(b.drop_last()[k] == b[k]);
        }
        lemma_col_count_mono(a.drop_last(), b.drop_last());
    }
}

proof fn lemma_col_count_strict(a: Seq<bool>, b: Seq<bool>, w: int)
    requires
        a.len() == b.len(),
        forall|k: int| 0 <= k < a.len() && a[k] ==> b[k],
        0 <= w < a.len(),
        !a[w],
        b[w],
    ensures
        col_count(a) < col_count(b),
    decreases a.len(),
{
    assert forall|k: int| 0 <= k < a.drop_last().len() && a.drop_last()[k] implies b.drop_last()[k] by {
        assert(a.drop_last()[k] == a[k]);
        assert(b.drop_last()[k] == b[k]);
    }
    if w == a.len() - 1 {
        lemma_col_count_mono(a.drop_last(), b.drop_last());
    } else {
        assert(a.drop_last()[w] == a[w]);
        assert(b.drop_last()[w] == b[w]);
        lemma_col_count_strict(a.drop_last(), b.drop_last(), w);
    }
}

proof fn lemma_grid_count_mono(a: Seq<Seq<bool>>, b: Seq<Seq<bool>>)
    requires
        a.len() == b.len(),
        forall|j: int| 0 <= j < a.len() ==> (#[trigger] a[j]).len() == b[j].len(),
        forall|j: int, k: int| #![trigger a[j][k]] 0 <= j < a.len() && 0 <= k < a[j].len()
            && a[j][k] ==> b[j][k],
    ensures
        grid_count(a) <= grid_count(b),
    decreases a.len(),
{
    if a.len() > 0 {
        let n = a.len() - 1;
        assert forall|j: int| 0 <= j < a.drop_last().len() implies (#[trigger] a.drop_last()[j]).len()
            == b.drop_last()[j].len() by {
            assert(a.drop_last()[j] == a[j]);
            assert(b.drop_last()[j] == b[j]);
        }
        assert forall|j: int, k: int| #![trigger a.drop_last()[j][k]]
            0 <= j < a.drop_last().len() && 0 <= k < a.drop_last()[j].len() && a.drop_last()[j][k]
            implies b.drop_last()[j][k] by {
            assert(a.drop_last()[j] == a[j]);
            assert(b.drop_last()[j] == b[j]);
        }
        lemma_grid_count_mono(a.drop_last(), b.drop_last());
        assert(a.last() == a[n]);
        assert(b.last() == b[n]);
        lemma_col_count_mono(a.last(), b.last());
    }
}

proof fn lemma_grid_count_strict(a: Seq<Seq<bool>>, b: Seq<Seq<bool>>, wx: int, wy: int)
    requires
        a.len() == b.len(),
        forall|j: int| 0 <= j < a.len() ==> (#[trigger] a[j]).len() == b[j].len(),
        forall|j: int, k: int| #![trigger a[j][k]] 0 <= j < a.len() && 0 <= k < a[j].len()
            && a[j][k] ==> b[j][k],
        0 <= wx < a.len(),
        0 <= wy < a[wx].len(),
        !a[wx][wy],
        b[wx][wy],
    ensures
        grid_count(a) < grid_count(b),
    decreases a.len(),
{
    let n = a.len() - 1;
    assert forall|j: int| 0 <= j < a.drop_last().len() implies (#[trigger] a.drop_last()[j]).len()
        == b.drop_last()[j].len() by {
        assert(a.drop_last()[j] == a[j]);
        assert(b.drop_last()[j] == b[j]);
    }
    assert forall|j: int, k: int| #![trigger a.drop_last()[j][k]]
        0 <= j < a.drop_last().len() && 0 <= k < a.drop_last()[j].len() && a.drop_last()[j][k]
        implies b.drop_last()[j][k] by {
        assert(a.drop_last()[j] == a[j]);
        assert(b.drop_last()[j] == b[j]);
    }
    assert(a.last() == a[n]);
    assert(b.last() == b[n]);
    if wx == n {
        lemma_grid_count_mono(a.drop_last(), b.drop_last());
        lemma_col_count_strict(a.last(), b.last(), wy);
    } else {
        assert(a.drop_last()[wx] == a[wx]);
        assert(b.drop_last()[wx] == b[wx]);
        lemma_grid_count_strict(a.drop_last(), b.drop_last(), wx, wy);
        lemma_col_count_mono(a.last(), b.last());
    }
}

/// Chomping preserves the grid's shape.
pub proof fn lemma_chomp_wf(g: Seq<Seq<bool>>, x: int, y: int)
    requires
        wf_grid(g),
    ensures
        wf_grid(chomp_grid(g, x, y)),
        chomp_grid(g, x, y).len() == g.len(),
        chomp_grid(g, x, y)[0].len() == g[0].len(),
{
    let c = chomp_grid(g, x, y);
    assert forall|j: int| 0 <= j < c.len() implies (#[trigger] c[j]).len() == c[0].len() by {
        assert(c[j].len() == g[j].len());
        assert(c[0].len() == g[0].len());
    }
}

/// Chomping at a legal target strictly shrinks the number of present
/// pieces: the target itself is eaten, and no cell is ever restored.
pub proof fn lemma_chomp_shrinks(g: Seq<Seq<bool>>, x: int, y: int)
    requires
        legal_move(g, x, y),
    ensures
        grid_count(chomp_grid(g, x, y)) < grid_count(g),
{
    let c = chomp_grid(g, x, y);
    assert forall|j: int| 0 <= j < c.len() implies (#[trigger] c[j]).len() == g[j].len() by {}
    assert forall|j: int, k: int| #![trigger c[j][k]]
        0 <= j < c.len() && 0 <= k < c[j].len() && c[j][k] implies g[j][k] by {}
    assert(!c[x][y]);
    assert(g[x][y]);
    lemma_grid_count_strict(c, g, x, y);
}

/// The remaining chocolate bar: a rectangular grid of cells, `true` while a
/// piece is present.  Applying a move never mutates a board; it yields a new
/// one.
pub struct BoardState {
    inner: Vec<Vec<bool>>,
}

impl View for BoardState {
    type V = Seq<Seq<bool>>;

    closed spec fn view(&self) -> Seq<Seq<bool>> {
        Seq::new(self.inner@.len(), |x: int| self.inner@[x]@)
    }
}

impl PartialEq for BoardState {
    /// Boards are equal exactly when their cell grids agree cell by cell.
    fn eq(&self, other: &BoardState) -> (r: bool) {
        let w = self.inner.len();
        if w != other.inner.len() {
            return false;
        }
        let mut x: usize = 0;
        while x < w
            invariant
                w == self.inner@.len(),
                w == other.inner@.len(),
                x <= w,
                forall|a: int| 0 <= a < x ==> self@[a] == other@[a],
            decreases w - x,
        {
            let h = self.inner[x].len();
            if h != other.inner[x].len() {
                assert(self@[x as int].len() != other@[x as int].len());
                return false;
            }
            let mut y: usize = 0;
            while y < h
                invariant
                    w == self.inner@.len(),
                    w == other.inner@.len(),
                    x < w,
                    y <= h,
                    h == self.inner@[x as int]@.len(),
                    h == other.inner@[x as int]@.len(),
                    forall|b: int| 0 <= b < y ==> self@[x as int][b] == other@[x as int][b],
                decreases h - y,
            {
                if self.inner[x][y] != other.inner[x][y] {
                    assert(self@[x as int][y as int] != other@[x as int][y as int]);
                    return false;
                }
                y += 1;
            }
            assert(self@[x as int] =~= other@[x as int]);
            x += 1;
        }
        proof {
            assert(self@ =~~= other@);
        }
        true
    }
}

impl vstd::std_specs::cmp::PartialEqSpecImpl for BoardState {
    open spec fn obeys_eq_spec() -> bool {
        true
    }

    open spec fn eq_spec(&self, other: &BoardState) -> bool {
        self@ == other@
    }
}

impl BoardState {
    /// Builds a board with every piece present.  Degenerate dimensions are
    /// rejected: a board without a poisoned piece is meaningless.
    pub fn new(width: usize, height: usize) -> (r: Result<BoardState, ChompError>)
        ensures
            r is Err <==> (width == 0 || height == 0),
            r matches Err(e) ==> e == ChompError::InvalidDimension,
            r matches Ok(b) ==> b@ == full_grid(width as int, height as int) && wf_grid(b@),
    {
        if width == 0 || height == 0 {
            return Err(ChompError::InvalidDimension);
        }
        let mut inner: Vec<Vec<bool>> = Vec::new();
        let mut x: usize = 0;
        while x < width
            invariant
                x <= width,
                inner@.len() == x,
                forall|a: int| 0 <= a < x ==> (#[trigger] inner@[a])@ == full_grid(
                    width as int,
                    height as int,
                )[a],
            decreases width - x,
        {
            let mut column: Vec<bool> = Vec::new();
            let mut y: usize = 0;
            while y < height
                invariant
                    y <= height,
                    column@.len() == y,
                    forall|b: int| 0 <= b < y ==> column@[b],
                decreases height - y,
            {
                column.push(true);
                y += 1;
            }
            proof {
                assert(column@ =~= full_grid(width as int, height as int)[x as int]);
            }
            inner.push(column);
            x += 1;
        }
        let b = BoardState { inner };
        proof {
            assert(b@ =~~= full_grid(width as int, height as int));
        }
        Ok(b)
    }

    /// Scans the board: `Loss` when only the poisoned piece remains for the
    /// player to move, `NoWinner` while some other piece is left.
    pub fn win_state(&self) -> (r: WinState)
        requires
            wf_grid(self@),
        ensures
            (r is Loss) <==> is_terminal(self@),
    {
        let width = self.inner.len();
        let height = self.inner[0].len();
        let mut x: usize = 0;
        while x < width
            invariant
                wf_grid(self@),
                width == self.inner@.len(),
                height == self@[0].len(),
                x <= width,
                forall|a: int, b: int| 0 <= a < x ==> !(#[trigger] legal_move(self@, a, b)),
            decreases width - x,
        {
            let mut y: usize = 0;
            while y < height
                invariant
                    wf_grid(self@),
                    width == self.inner@.len(),
                    height == self@[0].len(),
                    x < width,
                    y <= height,
                    forall|a: int, b: int| 0 <= a < x ==> !(#[trigger] legal_move(self@, a, b)),
                    forall|b: int| 0 <= b < y ==> !(#[trigger] legal_move(self@, x as int, b)),
                decreases height - y,
            {
                proof {
                    assert(self@[x as int] == self.inner@[x as int]@);
                    assert(self@[x as int].len() == height);
                }
                if (x != 0 || y != 0) && self.inner[x][y] {
                    proof {
                        assert(legal_move(self@, x as int, y as int));
                    }
                    return WinState::NoWinner;
                }
                y += 1;
            }
            proof {
                // Coordinates beyond the column's height are out of range.
                assert forall|b: int| !(#[trigger] legal_move(self@, x as int, b)) by {
                    assert(self@[x as int].len() == height);
                }
            }
            x += 1;
        }
        proof {
            // Coordinates beyond the width are out of range.
            assert forall|a: int, b: int| !(#[trigger] legal_move(self@, a, b)) by {}
        }
        WinState::Loss
    }

    /// The chomp removal rule itself, with no legality check.
    fn chomp_cells(&self, x: usize, y: usize) -> (r: BoardState)
        ensures
            r@ == chomp_grid(self@, x as int, y as int),
    {
        let ghost target = chomp_grid(self@, x as int, y as int);
        let width = self.inner.len();
        let mut inner: Vec<Vec<bool>> = Vec::new();
        let mut j: usize = 0;
        while j < width
            invariant
                width == self.inner@.len(),
                target == chomp_grid(self@, x as int, y as int),
                j <= width,
                inner@.len() == j,
                forall|a: int| 0 <= a < j ==> (#[trigger] inner@[a])@ == target[a],
            decreases width - j,
        {
            let hj = self.inner[j].len();
            let mut column: Vec<bool> = Vec::new();
            let mut k: usize = 0;
            while k < hj
                invariant
                    width == self.inner@.len(),
                    target == chomp_grid(self@, x as int, y as int),
                    j < width,
                    hj == self.inner@[j as int]@.len(),
                    k <= hj,
                    column@.len() == k,
                    forall|b: int| 0 <= b < k ==> column@[b] == target[j as int][b],
                decreases hj - k,
            {
                let keep = self.inner[j][k] && !(j >= x && k >= y);
                proof {
                    assert(target[j as int][k as int] == (self@[j as int][k as int] && !(j >= x
                        && k >= y)));
                }
                column.push(keep);
                k += 1;
            }
            proof {
                assert(column@ =~= target[j as int]);
            }
            inner.push(column);
            j += 1;
        }
        let r = BoardState { inner };
        proof {
            assert(r@ =~~= target);
        }
        r
    }

    /// Applies the chomp move at `(x, y)`: the new board lacks every cell at
    /// or beyond the target in both dimensions.  A move on a missing,
    /// poisoned, or out-of-range cell is rejected and the board is left as
    /// it was.
    pub fn do_move(&self, x: usize, y: usize) -> (r: Result<BoardState, ChompError>)
        requires
            wf_grid(self@),
        ensures
            r is Ok <==> legal_move(self@, x as int, y as int),
            r matches Err(e) ==> e == ChompError::InvalidMove,
            r matches Ok(b) ==> {
                &&& b@ == chomp_grid(self@, x as int, y as int)
                &&& wf_grid(b@)
                &&& grid_count(b@) < grid_count(self@)
            },
    {
        if x >= self.inner.len() {
            return Err(ChompError::InvalidMove);
        }
        if y >= self.inner[x].len() {
            return Err(ChompError::InvalidMove);
        }
        if x == 0 && y == 0 {
            return Err(ChompError::InvalidMove);
        }
        if !self.inner[x][y] {
            return Err(ChompError::InvalidMove);
        }
        proof {
            assert(legal_move(self@, x as int, y as int));
            lemma_chomp_wf(self@, x as int, y as int);
            lemma_chomp_shrinks(self@, x as int, y as int);
        }
        Ok(self.chomp_cells(x, y))
    }

    /// An independent copy of the board with the same cells.
    pub fn duplicate(&self) -> (r: BoardState)
        ensures
            r@ == self@,
    {
        let width = self.inner.len();
        let mut inner: Vec<Vec<bool>> = Vec::new();
        let mut j: usize = 0;
        while j < width
            invariant
                width == self.inner@.len(),
                j <= width,
                inner@.len() == j,
                forall|a: int| 0 <= a < j ==> (#[trigger] inner@[a])@ == self@[a],
            decreases width - j,
        {
            let hj = self.inner[j].len();
            let mut column: Vec<bool> = Vec::new();
            let mut k: usize = 0;
            while k < hj
                invariant
                    width == self.inner@.len(),
                    j < width,
                    hj == self.inner@[j as int]@.len(),
                    k <= hj,
                    column@.len() == k,
                    forall|b: int| 0 <= b < k ==> column@[b] == self@[j as int][b],
                decreases hj - k,
            {
                let piece = self.inner[j][k];
                column.push(piece);
                k += 1;
            }
            proof {
                assert(column@ =~= self@[j as int]);
            }
            inner.push(column);
            j += 1;
        }
        let r = BoardState { inner };
        proof {
            assert(r@ =~~= self@);
        }
        r
    }

    /// Whether the cell at `(x, y)` still holds a piece.
    pub fn piece_at(&self, x: usize, y: usize) -> (r: bool)
        requires
            in_grid(self@, x as int, y as int),
        ensures
            r == self@[x as int][y as int],
    {
        self.inner[x][y]
    }
}

/// The move `(x, y)` occurs somewhere in the enumerated move list.
pub open spec fn move_listed(r: Seq<((usize, usize), BoardState)>, x: int, y: int) -> bool {
    exists|i: int| 0 <= i < r.len() && (#[trigger] r[i]).0.0 as int == x && r[i].0.1 as int == y
}

proof fn lemma_rank_bounds(a: int, b: int, w: int, h: int)
    by (nonlinear_arith)
    requires
        0 <= a < w,
        0 <= b < h,
    ensures
        0 <= a * h + b < w * h,
{
}

/// Enumeration ranks are injective on in-range coordinates.
pub proof fn lemma_rank_injective(a1: int, b1: int, a2: int, b2: int, h: int)
    by (nonlinear_arith)
    requires
        h > 0,
        0 <= b1 < h,
        0 <= b2 < h,
        a1 * h + b1 == a2 * h + b2,
    ensures
        a1 == a2,
        b1 == b2,
{
}

proof fn lemma_rank_column_step(x: int, h: int)
    by (nonlinear_arith)
    ensures
        (x + 1) * h == x * h + h,
{
}

impl BoardState {
    /// Enumerates every legal move in enumeration order (`x` outer, `y`
    /// inner), each paired with the board that applying it yields.  The
    /// list is exhaustive, duplicate-free, and strictly ordered by
    /// enumeration rank.
    pub fn moves(&self) -> (r: Vec<((usize, usize), BoardState)>)
        requires
            wf_grid(self@),
        ensures
            forall|i: int| 0 <= i < r@.len() ==> legal_move(
                self@,
                (#[trigger] r@[i]).0.0 as int,
                r@[i].0.1 as int,
            ),
            forall|i: int| 0 <= i < r@.len() ==> (#[trigger] r@[i]).1@ == chomp_grid(
                self@,
                r@[i].0.0 as int,
                r@[i].0.1 as int,
            ),
            forall|x: int, y: int| #[trigger] legal_move(self@, x, y) ==> move_listed(r@, x, y),
            forall|i: int, j: int|
                #![trigger r@[i], r@[j]]
                0 <= i < j < r@.len() ==> rank(self@, r@[i].0.0 as int, r@[i].0.1 as int) < rank(
                    self@,
                    r@[j].0.0 as int,
                    r@[j].0.1 as int,
                ),
    {
        let ghost g = self@;
        let ghost h = self@[0].len() as int;
        let width = self.inner.len();
        let height = self.inner[0].len();
        let mut mvs: Vec<((usize, usize), BoardState)> = Vec::new();
        let mut x: usize = 0;
        while x < width
            invariant
                wf_grid(g),
                g == self@,
                width == self.inner@.len(),
                height as int == h,
                h == g[0].len(),
                x <= width,
                forall|i: int| 0 <= i < mvs@.len() ==> legal_move(
                    g,
                    (#[trigger] mvs@[i]).0.0 as int,
                    mvs@[i].0.1 as int,
                ),
                forall|i: int| 0 <= i < mvs@.len() ==> (#[trigger] mvs@[i]).1@ == chomp_grid(
                    g,
                    mvs@[i].0.0 as int,
                    mvs@[i].0.1 as int,
                ),
                forall|i: int| 0 <= i < mvs@.len() ==> rank(
                    g,
                    (#[trigger] mvs@[i]).0.0 as int,
                    mvs@[i].0.1 as int,
                ) < x as int * h,
                forall|i: int, j: int|
                    #![trigger mvs@[i], mvs@[j]]
                    0 <= i < j < mvs@.len() ==> rank(g, mvs@[i].0.0 as int, mvs@[i].0.1 as int)
                        < rank(g, mvs@[j].0.0 as int, mvs@[j].0.1 as int),
                forall|a: int, b: int|
                    #[trigger] legal_move(g, a, b) && rank(g, a, b) < x as int * h ==> move_listed(
                        mvs@,
                        a,
                        b,
                    ),
            decreases width - x,
        {
            let mut y: usize = 0;
            while y < height
                invariant
                    wf_grid(g),
                    g == self@,
                    width == self.inner@.len(),
                    height as int == h,
                    h == g[0].len(),
                    x < width,
                    y <= height,
                    forall|i: int| 0 <= i < mvs@.len() ==> legal_move(
                        g,
                        (#[trigger] mvs@[i]).0.0 as int,
                        mvs@[i].0.1 as int,
                    ),
                    forall|i: int| 0 <= i < mvs@.len() ==> (#[trigger] mvs@[i]).1@ == chomp_grid(
                        g,
                        mvs@[i].0.0 as int,
                        mvs@[i].0.1 as int,
                    ),
                    forall|i: int| 0 <= i < mvs@.len() ==> rank(
                        g,
                        (#[trigger] mvs@[i]).0.0 as int,
                        mvs@[i].0.1 as int,
                    ) < x as int * h + y as int,
                    forall|i: int, j: int|
                        #![trigger mvs@[i], mvs@[j]]
                        0 <= i < j < mvs@.len() ==> rank(g, mvs@[i].0.0 as int, mvs@[i].0.1 as int)
                            < rank(g, mvs@[j].0.0 as int, mvs@[j].0.1 as int),
                    forall|a: int, b: int|
                        #[trigger] legal_move(g, a, b) && rank(g, a, b) < x as int * h + y as int
                            ==> move_listed(mvs@, a, b),
                decreases height - y,
            {
                proof {
                    assert(g[x as int] == self.inner@[x as int]@);
                    assert(g[x as int].len() == h);
                }
                let ghost prefix = mvs@;
                if (x != 0 || y != 0) && self.inner[x][y] {
                    let child = self.chomp_cells(x, y);
                    mvs.push(((x, y), child));
                    proof {
                        assert(legal_move(g, x as int, y as int));
                        assert(mvs@ == prefix.push(((x, y), child)));
                        assert(mvs@[prefix.len() as int].0.0 as int == x as int);
                        assert forall|i: int| 0 <= i < prefix.len() implies #[trigger] mvs@[i]
                            == prefix[i] by {}
                    }
                }
                proof {
                    // Any legal move of rank exactly `x * h + y` is `(x, y)` itself.
                    assert forall|a: int, b: int|
                        #[trigger] legal_move(g, a, b) && rank(g, a, b) < x as int * h + y as int
                            + 1 implies move_listed(mvs@, a, b) by {
                        assert(g[a].len() == h);
                        if rank(g, a, b) < x as int * h + y as int {
                            assert(move_listed(prefix, a, b));
                            assert forall|i: int| 0 <= i < prefix.len() implies #[trigger] mvs@[i]
                                == prefix[i] by {}
                            let i = choose|i: int|
                                0 <= i < prefix.len() && (#[trigger] prefix[i]).0.0 as int == a
                                    && prefix[i].0.1 as int == b;
                            assert(mvs@[i] == prefix[i]);
                        } else {
                            lemma_rank_injective(a, b, x as int, y as int, h);
                            assert(g[x as int][y as int]);
                            assert(mvs@[mvs@.len() - 1].0.0 as int == a);
                        }
                    }
                }
                y += 1;
            }
            proof {
                lemma_rank_column_step(x as int, h);
            }
            x += 1;
        }
        proof {
            assert forall|a: int, b: int| #[trigger] legal_move(g, a, b) implies move_listed(
                mvs@,
                a,
                b,
            ) by {
                assert(g[a].len() == h);
                lemma_rank_bounds(a, b, width as int, h);
            }
        }
        mvs
    }
}

/// A freshly stocked board is terminal exactly when it consists of the
/// poisoned cell alone.
pub proof fn lemma_full_grid_terminal(w: int, h: int)
    requires
        1 <= w,
        1 <= h,
    ensures
        is_terminal(full_grid(w, h)) <==> (w == 1 && h == 1),
        is_terminal(full_grid(w, h)) <==> w * h == 1,
{
    assert((w == 1 && h == 1) <==> w * h == 1) by (nonlinear_arith)
        requires
            1 <= w,
            1 <= h,
    ;
    let g = full_grid(w, h);
    if w == 1 && h == 1 {
        assert forall|x: int, y: int| !(#[trigger] legal_move(g, x, y)) by {
            if in_grid(g, x, y) {
                assert(x == 0 && y == 0);
            }
        }
    } else {
        if w > 1 {
            assert(g[1][0]);
            assert(legal_move(g, 1, 0));
        } else {
            assert(g[0][1]);
            assert(legal_move(g, 0, 1));
        }
    }
}

} // verus!
