//! The board state engine: queen positions, the boards already seen, and the
//! repair step.
use vstd::prelude::*;

use crate::cost::{
    column_count, column_pred, conflicts_at, count_below, is_best_column, is_worst_queen,
    lemma_conflicts_are_threats, left_count, left_pred, queen_cost, queen_cost_fn, right_count,
    right_pred, sum_below, total_cost, valid_positions,
};

use crate::random::{below, choose_from};

verus! {

/// The smallest board that the engine accepts.
pub const MIN_SIZE: usize = 4;

/// Why a board could not be built or seeded.
#[derive(Debug, Clone, Copy, PartialEq, Eq, Structural)]
pub enum BoardError {
    /// The requested size is below four.
    InvalidSize,
    /// An initial state does not hold one column per row.
    SizeMismatch,
    /// An initial state holds a column outside the board.
    OutOfRange,
}

/// The direction of a diagonal, seen from a queen.
#[derive(Clone, Copy, PartialEq, Eq, Structural)]
enum Side {
    /// Towards lower columns.
    Left,
    /// Towards higher columns.
    Right,
}

/// A board of `n` rows and `n` columns with one queen per row, and the
/// boards that the search has already passed through.
#[derive(Clone)]
pub struct NQueens {
    n: usize,
    queens: Vec<usize>,
    last_queens: Vec<Vec<usize>>,
    verbose: bool,
}

impl NQueens {
    /// The number of rows and columns.
    pub closed spec fn board_size(&self) -> nat {
        self.n as nat
    }

    /// The column of each queen, by row.
    pub closed spec fn positions(&self) -> Seq<usize> {
        self.queens@
    }

    /// The boards recorded since the last reseed.
    pub closed spec fn history(&self) -> Set<Seq<usize>> {
        self.last_queens@.map_values(|v: Vec<usize>| v@).to_set()
    }

    /// Whether rendering shows each queen's cost.
    pub closed spec fn verbose_mode(&self) -> bool {
        self.verbose
    }

    /// The size is at least four and small enough that a total cost fits in a
    /// `usize`, every queen stands on the board, and the history holds each
    /// board once.
    pub closed spec fn wf(&self) -> bool {
        &&& MIN_SIZE <= self.n
        &&& self.n * self.n <= usize::MAX
        &&& valid_positions(self.queens@, self.n as int)
        &&& forall|a: int, b: int|
            0 <= a < b < self.last_queens@.len() ==> #[trigger] self.last_queens@[a]@
                != #[trigger] self.last_queens@[b]@
    }

    /// What a well-formed board gives its users: at least four rows, one
    /// queen per row, each on the board.
    pub proof fn lemma_wf_positions(&self)
        requires
            self.wf(),
        ensures
            MIN_SIZE <= self.board_size(),
            valid_positions(self.positions(), self.board_size() as int),
    {
    }

    /// A board as built for `n` rows: well-formed, every queen in column
    /// zero, no history, plain rendering.
    pub open spec fn is_fresh(&self, n: nat) -> bool {
        &&& self.wf()
        &&& self.board_size() == n
        &&& self.positions() == Seq::new(n, |i: int| 0usize)
        &&& self.history().is_empty()
        &&& !self.verbose_mode()
    }

    /// An empty board of `with_n` rows: every queen in column zero, no
    /// history, plain rendering. Boards below four rows are refused.
    pub fn new(with_n: usize) -> (r: Result<Self, BoardError>)
        requires
            with_n * with_n <= usize::MAX,
        ensures
            with_n < MIN_SIZE <==> r is Err,
            r is Err ==> r->Err_0 == BoardError::InvalidSize,
            r matches Ok(b) ==> b.is_fresh(with_n as nat),
    {
        if with_n < MIN_SIZE {
            return Err(BoardError::InvalidSize);
        }
        let mut queens: Vec<usize> = Vec::new();
        let mut i: usize = 0;
        while i < with_n
            invariant
                i <= with_n,
                queens@ == Seq::new(i as nat, |k: int| 0usize),
            decreases with_n - i,
        {
            queens.push(0);
            i = i + 1;
        }
        let last_queens: Vec<Vec<usize>> = Vec::new();
        let b = NQueens { n: with_n, queens, last_queens, verbose: false };
        proof {
            assert(b.history() =~= Set::empty());
        }
        Ok(b)
    }

    /// The same board, rendered with or without each queen's cost.
    pub fn with_verbose(self, value: bool) -> (r: Self)
        requires
            self.wf(),
        ensures
            r.wf(),
            r.board_size() == self.board_size(),
            r.positions() == self.positions(),
            r.history() == self.history(),
            r.verbose_mode() == value,
    {
        let mut b = self;
        b.verbose = value;
        b
    }

    /// Seeds the board with `state`, one column per row, and clears its
    /// history. A state of the wrong length, or with a column off the board,
    /// is refused and the board is left as it was.
    pub fn set_state(&mut self, state: &[usize]) -> (r: Result<(), BoardError>)
        requires
            old(self).wf(),
        ensures
            final(self).wf(),
            r is Ok <==> valid_positions(state@, old(self).board_size() as int),
            state@.len() != old(self).board_size() ==> r == Err::<(), BoardError>(
                BoardError::SizeMismatch,
            ),
            state@.len() == old(self).board_size() && r is Err ==> r->Err_0
                == BoardError::OutOfRange,
            r is Err ==> *final(self) == *old(self),
            r is Ok ==> {
                &&& final(self).board_size() == old(self).board_size()
                &&& final(self).positions() == state@
                &&& final(self).history().is_empty()
                &&& final(self).verbose_mode() == old(self).verbose_mode()
            },
    {
        if state.len() != self.n {
            return Err(BoardError::SizeMismatch);
        }
        let mut i: usize = 0;
        while i < state.len()
            invariant
                self.wf(),
                state@.len() == self.n,
                i <= state@.len(),
                forall|k: int| 0 <= k < i ==> #[trigger] state@[k] < self.n,
            decreases state@.len() - i,
        {
            if state[i] >= self.n {
                return Err(BoardError::OutOfRange);
            }
            i = i + 1;
        }
        self.last_queens.clear();
        let mut j: usize = 0;
        while j < state.len()
            invariant
                self.n == old(self).n,
                self.verbose == old(self).verbose,
                self.last_queens@.len() == 0,
                self.queens@.len() == self.n,
                state@.len() == self.n,
                j <= state@.len(),
                forall|k: int| 0 <= k < j ==> #[trigger] self.queens@[k] == state@[k],
            decreases state@.len() - j,
        {
            self.queens.set(j, state[j]);
            j = j + 1;
        }
        proof {
            assert(self.queens@ =~= state@);
            assert(self.history() =~= Set::empty());
        }
        Ok(())
    }

    /// The same board seeded with `state`, one column per row, and its
    /// history cleared. A state of the wrong length, or with a column off
    /// the board, is refused.
    pub fn with_state(self, state: &[usize]) -> (r: Result<Self, BoardError>)
        requires
            self.wf(),
        ensures
            r is Ok <==> valid_positions(state@, self.board_size() as int),
            state@.len() != self.board_size() ==> r == Err::<Self, BoardError>(
                BoardError::SizeMismatch,
            ),
            state@.len() == self.board_size() && r is Err ==> r->Err_0 == BoardError::OutOfRange,
            r matches Ok(b) ==> {
                &&& b.wf()
                &&& b.board_size() == self.board_size()
                &&& b.positions() == state@
                &&& b.history().is_empty()
                &&& b.verbose_mode() == self.verbose_mode()
            },
    {
        let mut b = self;
        match b.set_state(state) {
            Ok(()) => Ok(b),
            Err(e) => Err(e),
        }
    }

    /// The same board with queen `i` in column `draws[i] % n`, for `n` rows,
    /// and its history cleared.
    pub fn with_draws(self, draws: &[usize]) -> (r: Self)
        requires
            self.wf(),
            draws@.len() == self.board_size(),
        ensures
            r.wf(),
            r.board_size() == self.board_size(),
            r.verbose_mode() == self.verbose_mode(),
            r.history().is_empty(),
            r.positions() == Seq::new(
                self.board_size(),
                |i: int| ((draws@[i] as int) % (self.board_size() as int)) as usize,
            ),
    {
        let mut b = self;
        b.last_queens.clear();
        let mut i: usize = 0;
        while i < b.n
            invariant
                b.n == self.n,
                b.verbose == self.verbose,
                b.last_queens@.len() == 0,
                MIN_SIZE <= b.n,
                b.n * b.n <= usize::MAX,
                valid_positions(b.queens@, b.n as int),
                draws@.len() == b.n,
                i <= b.n,
                forall|k: int| 0 <= k < i ==> #[trigger] b.queens@[k] == (draws@[k] as int) % (b.n as int),
            decreases b.n - i,
        {
            b.queens.set(i, draws[i] % b.n);
            i = i + 1;
        }
        proof {
            assert(b.queens@ =~= Seq::new(
                self.board_size(),
                |i: int| ((draws@[i] as int) % (self.board_size() as int)) as usize,
            ));
            assert(b.history() =~= Set::empty());
        }
        b
    }

    /// The same board with every queen in a random column and its history
    /// cleared.
    pub fn into_random_state(self) -> (r: Self)
        requires
            self.wf(),
        ensures
            r.wf(),
            r.board_size() == self.board_size(),
            r.verbose_mode() == self.verbose_mode(),
            r.history().is_empty(),
            valid_positions(r.positions(), self.board_size() as int),
    {
        let mut draws: Vec<usize> = Vec::new();
        let mut i: usize = 0;
        while i < self.n
            invariant
                i <= self.n,
                draws@.len() == i,
            decreases self.n - i,
        {
            draws.push(rand::random::<usize>());
            i = i + 1;
        }
        self.with_draws(draws.as_slice())
    }

    /// The number of rows and columns.
    pub fn size(&self) -> (r: usize)
        ensures
            r == self.board_size(),
    {
        self.n
    }

    /// The column of each queen, by row.
    pub fn queens(&self) -> (r: &[usize])
        requires
            self.wf(),
        ensures
            r@ == self.positions(),
            valid_positions(r@, self.board_size() as int),
    {
        self.queens.as_slice()
    }

    /// The number of boards in the history.
    pub fn history_len(&self) -> (r: usize)
        requires
            self.wf(),
        ensures
            r == self.history().len(),
    {
        proof {
            let seen = self.last_queens@.map_values(|v: Vec<usize>| v@);
            assert forall|a: int, b: int|
                0 <= a < seen.len() && 0 <= b < seen.len() && a != b implies seen[a] != seen[b] by {
                if a < b {
                    assert(self.last_queens@[a]@ != self.last_queens@[b]@);
                } else {
                    assert(self.last_queens@[b]@ != self.last_queens@[a]@);
                }
            }
            seen.unique_seq_to_set();
        }
        self.last_queens.len()
    }

    /// Whether rendering shows each queen's cost.
    pub fn is_verbose(&self) -> (r: bool)
        ensures
            r == self.verbose_mode(),
    {
        self.verbose
    }

    /// Counts the other queens in column `at`, for queen `of` placed there.
    fn column_c(&self, of: usize, at: usize) -> (r: usize)
        requires
            self.wf(),
            of < self.n,
        ensures
            r == column_count(self.positions(), of as int, at as int),
    {
        let ghost q = self.queens@;
        let mut count: usize = 0;
        let mut x: usize = 0;
        while x < self.n
            invariant
                self.wf(),
                q == self.queens@,
                x <= self.n,
                count <= x,
                count == count_below(x as int, column_pred(q, of as int, at as int)),
            decreases self.n - x,
        {
            if x != of && self.queens[x] == at {
                count = count + 1;
            }
            x = x + 1;
        }
        count
    }

    /// Counts the other queens on the `side` diagonal of the square in row
    /// `of` and column `at`.
    fn diagonal_c(&self, of: usize, at: usize, side: Side) -> (r: usize)
        requires
            self.wf(),
            of < self.n,
        ensures
            side == Side::Left ==> r == left_count(self.positions(), of as int, at as int),
            side == Side::Right ==> r == right_count(self.positions(), of as int, at as int),
    {
        let ghost q = self.queens@;
        let ghost p = match side {
            Side::Left => left_pred(q, of as int, at as int),
            Side::Right => right_pred(q, of as int, at as int),
        };
        let mut count: usize = 0;
        let mut x: usize = 0;
        while x < self.n
            invariant
                self.wf(),
                q == self.queens@,
                x <= self.n,
                count <= x,
                side == Side::Left ==> p == left_pred(q, of as int, at as int),
                side == Side::Right ==> p == right_pred(q, of as int, at as int),
                count == count_below(x as int, p),
            decreases self.n - x,
        {
            if x != of {
                let offset: usize = if x >= of {
                    x - of
                } else {
                    of - x
                };
                let target = match side {
                    Side::Left => at.checked_sub(offset),
                    Side::Right => at.checked_add(offset),
                };
                if let Some(res) = target {
                    if self.queens[x] == res {
                        count = count + 1;
                    }
                }
            }
            x = x + 1;
        }
        count
    }

    /// The three parts of the cost of queen `of`: the other queens in its
    /// column, on its lower-column diagonal and on its higher-column diagonal.
    pub fn cost_of(&self, of: usize) -> (r: (usize, usize, usize))
        requires
            self.wf(),
            of < self.board_size(),
        ensures
            r.0 == column_count(self.positions(), of as int, self.positions()[of as int] as int),
            r.1 == left_count(self.positions(), of as int, self.positions()[of as int] as int),
            r.2 == right_count(self.positions(), of as int, self.positions()[of as int] as int),
            r.0 + r.1 + r.2 <= self.board_size(),
    {
        let at = self.queens[of];
        proof {
            lemma_conflicts_are_threats(self.queens@, of as int, at as int);
        }
        (self.column_c(of, at), self.diagonal_c(of, at, Side::Left), self.diagonal_c(of, at, Side::Right))
    }

    /// The cost that queen `of` would have in column `at`, the other queens
    /// staying where they are.
    fn cost_at(&self, of: usize, at: usize) -> (r: usize)
        requires
            self.wf(),
            of < self.n,
        ensures
            r == conflicts_at(self.positions(), of as int, at as int),
            r <= self.n,
    {
        proof {
            lemma_conflicts_are_threats(self.queens@, of as int, at as int);
        }
        let c = self.column_c(of, at);
        let l = self.diagonal_c(of, at, Side::Left);
        let r = self.diagonal_c(of, at, Side::Right);
        c + l + r
    }

    /// The cost of queen `of` where it stands.
    pub fn queen_cost(&self, of: usize) -> (r: usize)
        requires
            self.wf(),
            of < self.board_size(),
        ensures
            r == queen_cost(self.positions(), of as int),
            r <= self.board_size(),
    {
        self.cost_at(of, self.queens[of])
    }

    /// The total cost of the board: the sum of the costs of all queens.
    pub fn overall_cost(&self) -> (r: usize)
        requires
            self.wf(),
        ensures
            r == total_cost(self.positions()),
    {
        let ghost q = self.queens@;
        let mut total: usize = 0;
        let mut x: usize = 0;
        while x < self.n
            invariant
                self.wf(),
                q == self.queens@,
                x <= self.n,
                total == sum_below(x as int, queen_cost_fn(q)),
                total <= x * self.n,
            decreases self.n - x,
        {
            let c = self.queen_cost(x);
            proof {
                assert((x + 1) * self.n <= self.n * self.n) by (nonlinear_arith)
                    requires
                        x + 1 <= self.n,
                ;
                assert(x * self.n + self.n == (x + 1) * self.n) by (nonlinear_arith);
            }
            total = total + c;
            x = x + 1;
        }
        total
    }

    /// The board is in its history.
    fn was_visited(&self) -> (r: bool)
        requires
            self.wf(),
        ensures
            r == self.history().contains(self.positions()),
    {
        let ghost seen = self.last_queens@.map_values(|v: Vec<usize>| v@);
        let mut k: usize = 0;
        while k < self.last_queens.len()
            invariant
                seen == self.last_queens@.map_values(|v: Vec<usize>| v@),
                k <= self.last_queens@.len(),
                forall|i: int| 0 <= i < k ==> #[trigger] seen[i] != self.queens@,
            decreases self.last_queens@.len() - k,
        {
            if same_board(&self.last_queens[k], &self.queens) {
                proof {
                    assert(seen[k as int] == self.queens@);
                    assert(seen.contains(self.queens@));
                }
                return true;
            }
            k = k + 1;
        }
        proof {
            assert(!seen.contains(self.queens@)) by {
                if seen.contains(self.queens@) {
                    let i = choose|i: int| 0 <= i < seen.len() && seen[i] == self.queens@;
                    assert(seen[i] != self.queens@);
                }
            }
        }
        false
    }

    /// Adds the board to its history.
    fn remember(&mut self)
        requires
            old(self).wf(),
            !old(self).history().contains(old(self).positions()),
        ensures
            final(self).wf(),
            final(self).board_size() == old(self).board_size(),
            final(self).positions() == old(self).positions(),
            final(self).verbose_mode() == old(self).verbose_mode(),
            final(self).history() == old(self).history().insert(old(self).positions()),
    {
        let ghost before = self.last_queens@.map_values(|v: Vec<usize>| v@);
        let snapshot = copy_board(&self.queens);
        self.last_queens.push(snapshot);
        proof {
            let after = self.last_queens@.map_values(|v: Vec<usize>| v@);
            assert(after =~= before.push(self.queens@));
            assert forall|a: int, b: int|
                0 <= a < b < self.last_queens@.len() implies #[trigger] self.last_queens@[a]@
                != #[trigger] self.last_queens@[b]@ by {
                if b == self.last_queens@.len() - 1 {
                    assert(before[a] == self.last_queens@[a]@);
                    assert(before.contains(before[a]));
                }
            }
            assert forall|x: Seq<usize>| #[trigger] after.contains(x) <==> before.contains(x) || x
                == self.queens@ by {
                if after.contains(x) {
                    let i = choose|i: int| 0 <= i < after.len() && after[i] == x;
                    if i < before.len() {
                        assert(before[i] == x);
                    }
                }
                if before.contains(x) {
                    let i = choose|i: int| 0 <= i < before.len() && before[i] == x;
                    assert(after[i] == x);
                }
                if x == self.queens@ {
                    assert(after[before.len() as int] == x);
                }
            }
            assert(self.history() =~= old(self).history().insert(old(self).positions()));
        }
    }

    /// The queens of highest cost, in increasing row order.
    pub fn worst_queens(&self) -> (r: Vec<usize>)
        requires
            self.wf(),
        ensures
            r@.len() > 0,
            forall|k: int| 0 <= k < r@.len() ==> #[trigger] r@[k] < self.board_size(),
            forall|a: int, b: int| 0 <= a < b < r@.len() ==> #[trigger] r@[a] < #[trigger] r@[b],
            forall|w: int|
                0 <= w < self.board_size() ==> (r@.contains(w as usize) <==> is_worst_queen(
                    self.positions(),
                    w,
                )),
    {
        let ghost q = self.queens@;
        let mut costs: Vec<usize> = Vec::new();
        let mut worst: usize = 0;
        let ghost mut wi: int = 0;
        let mut x: usize = 0;
        while x < self.n
            invariant
                self.wf(),
                q == self.queens@,
                x <= self.n,
                costs@.len() == x,
                forall|k: int| 0 <= k < x ==> #[trigger] costs@[k] == queen_cost(q, k),
                forall|k: int| 0 <= k < x ==> #[trigger] costs@[k] <= worst,
                x > 0 ==> 0 <= wi < x && costs@[wi] == worst,
            decreases self.n - x,
        {
            let c = self.queen_cost(x);
            if x == 0 || c > worst {
                worst = c;
                proof {
                    wi = x as int;
                }
            }
            costs.push(c);
            x = x + 1;
        }
        let mut r: Vec<usize> = Vec::new();
        let mut y: usize = 0;
        while y < self.n
            invariant
                self.wf(),
                q == self.queens@,
                y <= self.n,
                costs@.len() == self.n,
                forall|k: int| 0 <= k < self.n ==> #[trigger] costs@[k] == queen_cost(q, k),
                forall|k: int| 0 <= k < self.n ==> #[trigger] costs@[k] <= worst,
                0 <= wi < self.n && costs@[wi] == worst,
                y > wi ==> r@.len() > 0,
                forall|k: int| 0 <= k < r@.len() ==> #[trigger] r@[k] < y,
                forall|a: int, b: int| 0 <= a < b < r@.len() ==> #[trigger] r@[a] < #[trigger] r@[b],
                forall|w: int|
                    0 <= w < self.n ==> (r@.contains(w as usize) <==> (w < y && costs@[w]
                        == worst)),
            decreases self.n - y,
        {
            let ghost before = r@;
            if costs[y] == worst {
                r.push(y);
                proof {
                    assert forall|w: int| 0 <= w < self.n implies (r@.contains(w as usize) <==> (w
                        < y + 1 && costs@[w] == worst)) by {
                        if before.contains(w as usize) {
                            let i = choose|i: int| 0 <= i < before.len() && before[i] == w;
                            assert(r@[i] == w);
                        }
                        if r@.contains(w as usize) && w != y {
                            let i = choose|i: int| 0 <= i < r@.len() && r@[i] == w;
                            assert(before[i] == w);
                        }
                        if w == y {
                            assert(r@[before.len() as int] == w);
                        }
                    }
                }
            } else {
                proof {
                    assert forall|w: int| 0 <= w < self.n implies (r@.contains(w as usize) <==> (w
                        < y + 1 && costs@[w] == worst)) by {
                        if r@.contains(w as usize) {
                            let i = choose|i: int| 0 <= i < r@.len() && r@[i] == w;
                            assert(r@[i] < y);
                        }
                    }
                }
            }
            y = y + 1;
        }
        proof {
            assert forall|v: int| 0 <= v < self.n implies (r@.contains(v as usize)
                <==> is_worst_queen(q, v)) by {
                if costs@[v] == worst {
                    assert forall|i: int| 0 <= i < q.len() implies #[trigger] queen_cost(q, i)
                        <= queen_cost(q, v) by {
                        assert(costs@[i] <= worst);
                    }
                }
                if is_worst_queen(q, v) {
                    assert(queen_cost(q, wi) <= queen_cost(q, v));
                    assert(costs@[v] <= worst);
                }
            }
        }
        r
    }

    /// The columns other than its own where queen `w` would have the lowest
    /// cost, in increasing order.
    pub fn best_columns(&self, w: usize) -> (r: Vec<usize>)
        requires
            self.wf(),
            w < self.board_size(),
        ensures
            r@.len() > 0,
            forall|k: int| 0 <= k < r@.len() ==> #[trigger] r@[k] < self.board_size(),
            forall|a: int, b: int| 0 <= a < b < r@.len() ==> #[trigger] r@[a] < #[trigger] r@[b],
            forall|c: int|
                0 <= c < self.board_size() ==> (r@.contains(c as usize) <==> is_best_column(
                    self.positions(),
                    w as int,
                    c,
                )),
    {
        let ghost q = self.queens@;
        let prev = self.queens[w];
        let mut costs: Vec<usize> = Vec::new();
        let mut best: usize = 0;
        let mut found = false;
        let ghost mut bi: int = 0;
        let mut x: usize = 0;
        while x < self.n
            invariant
                self.wf(),
                q == self.queens@,
                w < self.n,
                prev == q[w as int],
                x <= self.n,
                costs@.len() == x,
                forall|k: int| 0 <= k < x ==> #[trigger] costs@[k] == conflicts_at(q, w as int, k),
                forall|k: int| 0 <= k < x && k != prev ==> best <= #[trigger] costs@[k],
                found ==> 0 <= bi < x && bi != prev && costs@[bi] == best,
                !found ==> x == 0 || (x == 1 && prev == 0),
            decreases self.n - x,
        {
            let c = self.cost_at(w, x);
            if x != prev && (!found || c < best) {
                best = c;
                found = true;
                proof {
                    bi = x as int;
                }
            }
            costs.push(c);
            x = x + 1;
        }
        let mut r: Vec<usize> = Vec::new();
        let mut y: usize = 0;
        while y < self.n
            invariant
                self.wf(),
                q == self.queens@,
                w < self.n,
                prev == q[w as int],
                y <= self.n,
                costs@.len() == self.n,
                forall|k: int| 0 <= k < self.n ==> #[trigger] costs@[k] == conflicts_at(q, w as int, k),
                forall|k: int| 0 <= k < self.n && k != prev ==> best <= #[trigger] costs@[k],
                0 <= bi < self.n && bi != prev && costs@[bi] == best,
                y > bi ==> r@.len() > 0,
                forall|k: int| 0 <= k < r@.len() ==> #[trigger] r@[k] < y,
                forall|a: int, b: int| 0 <= a < b < r@.len() ==> #[trigger] r@[a] < #[trigger] r@[b],
                forall|c: int|
                    0 <= c < self.n ==> (#[trigger] r@.contains(c as usize) <==> (c < y && c != prev
                        && costs@[c] == best)),
            decreases self.n - y,
        {
            let ghost before = r@;
            if y != prev && costs[y] == best {
                r.push(y);
                proof {
                    assert forall|c: int| 0 <= c < self.n implies (#[trigger] r@.contains(c as usize) <==> (c
                        < y + 1 && c != prev && costs@[c] == best)) by {
                        if before.contains(c as usize) {
                            let i = choose|i: int| 0 <= i < before.len() && before[i] == c;
                            assert(r@[i] == c);
                        }
                        if r@.contains(c as usize) && c != y {
                            let i = choose|i: int| 0 <= i < r@.len() && r@[i] == c;
                            assert(before[i] == c);
                            assert(before.contains(c as usize));
                        }
                        if c == y {
                            assert(r@[before.len() as int] == c);
                            assert(c != prev);
                            assert(costs@[c] == best);
                        }
                    }
                }
            } else {
                proof {
                    assert forall|c: int| 0 <= c < self.n implies (#[trigger] r@.contains(c as usize) <==> (c
                        < y + 1 && c != prev && costs@[c] == best)) by {
                        if r@.contains(c as usize) {
                            let i = choose|i: int| 0 <= i < r@.len() && r@[i] == c;
                            assert(r@[i] < y);
                        }
                        if c == y {
                            assert(!r@.contains(c as usize));
                            assert(!(c != prev && costs@[c] == best));
                        }
                    }
                }
            }
            y = y + 1;
        }
        proof {
            assert forall|c: int| 0 <= c < self.n implies (r@.contains(c as usize)
                <==> is_best_column(q, w as int, c)) by {
                if c != prev && costs@[c] == best {
                    assert forall|d: int| 0 <= d < q.len() && d != q[w as int] implies conflicts_at(
                        q,
                        w as int,
                        c,
                    ) <= #[trigger] conflicts_at(q, w as int, d) by {
                        assert(best <= costs@[d]);
                    }
                }
                if is_best_column(q, w as int, c) {
                    assert(conflicts_at(q, w as int, c) <= conflicts_at(q, w as int, bi));
                    assert(best <= costs@[c]);
                }
            }
        }
        r
    }

    /// What one repair step makes of `self` into `next`: queen `worst` moves
    /// to column `new_col`; a board that is in its history first has the
    /// queen of row `row` put in column `col`, and any other board is added to
    /// the history.
    pub open spec fn repaired(
        self,
        next: Self,
        worst: usize,
        new_col: usize,
        row: usize,
        col: usize,
    ) -> bool {
        &&& next.board_size() == self.board_size()
        &&& next.verbose_mode() == self.verbose_mode()
        &&& if self.history().contains(self.positions()) {
            &&& next.history() == self.history()
            &&& next.positions() == self.positions().update(row as int, col).update(
                worst as int,
                new_col,
            )
        } else {
            &&& next.history() == self.history().insert(self.positions())
            &&& next.positions() == self.positions().update(worst as int, new_col)
        }
    }

    /// One repair step with its choices given: queen `worst` moves to column
    /// `new_col`. If the board is already in the history, the queen of row
    /// `row` is first put in column `col`; otherwise the board is recorded.
    /// Returns the total cost of the new board.
    pub fn step_with(&mut self, worst: usize, new_col: usize, row: usize, col: usize) -> (r: usize)
        requires
            old(self).wf(),
            worst < old(self).board_size(),
            new_col < old(self).board_size(),
            row < old(self).board_size(),
            col < old(self).board_size(),
        ensures
            final(self).wf(),
            old(self).repaired(*final(self), worst, new_col, row, col),
            r == total_cost(final(self).positions()),
    {
        if self.was_visited() {
            self.queens.set(row, col);
        } else {
            self.remember();
        }
        self.queens.set(worst, new_col);
        self.overall_cost()
    }

    /// One repair step: a queen of highest cost, chosen at random among
    /// them, moves to a column of lowest cost for it, chosen at random among
    /// the columns other than its own. A board that is in the history also
    /// has a random queen put in a random column; any other board is
    /// recorded. Returns the total cost of the new board.
    pub fn step(&mut self) -> (r: usize)
        requires
            old(self).wf(),
        ensures
            final(self).wf(),
            exists|worst: usize, new_col: usize, row: usize, col: usize|
                {
                    &&& is_worst_queen(old(self).positions(), worst as int)
                    &&& is_best_column(old(self).positions(), worst as int, new_col as int)
                    &&& row < old(self).board_size()
                    &&& col < old(self).board_size()
                    &&& #[trigger] old(self).repaired(*final(self), worst, new_col, row, col)
                },
            r == total_cost(final(self).positions()),
    {
        let mut rng = rand::thread_rng();
        let worst_list = self.worst_queens();
        let worst = choose_from(&worst_list, &mut rng).unwrap();
        let cols = self.best_columns(worst);
        let new_col = choose_from(&cols, &mut rng).unwrap();
        let mut row: usize = 0;
        let mut col: usize = 0;
        if self.was_visited() {
            col = below(&mut rng, self.n);
            row = below(&mut rng, self.n);
        }
        self.step_with(worst, new_col, row, col)
    }
}

/// Construction is deterministic: two boards built for the same size hold
/// the same positions, the same (empty) history and the same display mode.
pub proof fn lemma_fresh_boards_agree(b1: NQueens, b2: NQueens, n: nat)
    requires
        b1.is_fresh(n),
        b2.is_fresh(n),
    ensures
        b1.board_size() == b2.board_size(),
        b1.positions() == b2.positions(),
        b1.history() == b2.history(),
        b1.verbose_mode() == b2.verbose_mode(),
{
}

/// A repair step does not stop at a solved board: on a board of cost zero
/// that is not in its history, every outcome of the step records the board
/// and moves one queen to a column other than its own.
pub proof fn lemma_step_moves_solved_board(b: NQueens, next: NQueens)
    requires
        b.wf(),
        total_cost(b.positions()) == 0,
        !b.history().contains(b.positions()),
        exists|worst: usize, new_col: usize, row: usize, col: usize|
            {
                &&& is_worst_queen(b.positions(), worst as int)
                &&& is_best_column(b.positions(), worst as int, new_col as int)
                &&& row < b.board_size()
                &&& col < b.board_size()
                &&& #[trigger] b.repaired(next, worst, new_col, row, col)
            },
    ensures
        next.history() == b.history().insert(b.positions()),
        next.positions().len() == b.positions().len(),
        exists|w: int|
            0 <= w < b.board_size() && next.positions()[w] != b.positions()[w] && #[trigger] next.positions()
                == b.positions().update(w, next.positions()[w]),
{
    let (worst, new_col, row, col) = choose|worst: usize, new_col: usize, row: usize, col: usize|
        {
            &&& is_worst_queen(b.positions(), worst as int)
            &&& is_best_column(b.positions(), worst as int, new_col as int)
            &&& row < b.board_size()
            &&& col < b.board_size()
            &&& #[trigger] b.repaired(next, worst, new_col, row, col)
        };
    assert(next.positions()[worst as int] == new_col);
}

/// The two boards hold the same columns.
fn same_board(a: &Vec<usize>, b: &Vec<usize>) -> (r: bool)
    ensures
        r == (a@ == b@),
{
    if a.len() != b.len() {
        return false;
    }
    let mut i: usize = 0;
    while i < a.len()
        invariant
            a@.len() == b@.len(),
            i <= a@.len(),
            forall|k: int| 0 <= k < i ==> #[trigger] a@[k] == b@[k],
        decreases a@.len() - i,
    {
        if a[i] != b[i] {
            return false;
        }
        i = i + 1;
    }
    proof {
        assert(a@ =~= b@);
    }
    true
}

/// A copy of the board's columns.
fn copy_board(a: &Vec<usize>) -> (r: Vec<usize>)
    ensures
        r@ == a@,
{
    let mut r: Vec<usize> = Vec::new();
    let mut i: usize = 0;
    while i < a.len()
        invariant
            i <= a@.len(),
            r@ == a@.subrange(0, i as int),
        decreases a@.len() - i,
    {
        r.push(a[i]);
        proof {
            assert(a@.subrange(0, i + 1) =~= a@.subrange(0, i as int).push(a@[i as int]));
        }
        i = i + 1;
    }
    proof {
        assert(a@.subrange(0, a@.len() as int) =~= a@);
    }
    r
}

} // verus!
