//! The conflict model of a board: queen `i` stands in row `i` and column
//! `q[i]`, and two queens attack each other when they share a column or a
//! diagonal.
use vstd::prelude::*;

verus! {

/// The sum of `f(x)` over `0 <= x < k`.
pub open spec fn sum_below(k: int, f: spec_fn(int) -> nat) -> nat
    decreases k,
{
    if k <= 0 {
        0
    } else {
        sum_below(k - 1, f) + f(k - 1)
    }
}

/// The number of `x` with `0 <= x < k` for which `p(x)` holds.
pub open spec fn count_below(k: int, p: spec_fn(int) -> bool) -> nat
    decreases k,
{
    if k <= 0 {
        0
    } else {
        count_below(k - 1, p) + if p(k - 1) {
            1nat
        } else {
            0nat
        }
    }
}

/// How many rows lie between row `i` and row `j`.
pub open spec fn row_distance(i: int, j: int) -> int {
    if i <= j {
        j - i
    } else {
        i - j
    }
}

/// Queen `j` stands in column `c`, seen from the square `(i, c)`.
pub open spec fn same_column(q: Seq<usize>, i: int, c: int, j: int) -> bool {
    j != i && q[j] == c
}

/// Queen `j` stands on the diagonal that runs to lower columns from `(i, c)`.
pub open spec fn same_left_diagonal(q: Seq<usize>, i: int, c: int, j: int) -> bool {
    j != i && q[j] == c - row_distance(i, j)
}

/// Queen `j` stands on the diagonal that runs to higher columns from `(i, c)`.
pub open spec fn same_right_diagonal(q: Seq<usize>, i: int, c: int, j: int) -> bool {
    j != i && q[j] == c + row_distance(i, j)
}

pub open spec fn column_pred(q: Seq<usize>, i: int, c: int) -> spec_fn(int) -> bool {
    |j: int| same_column(q, i, c, j)
}

pub open spec fn left_pred(q: Seq<usize>, i: int, c: int) -> spec_fn(int) -> bool {
    |j: int| same_left_diagonal(q, i, c, j)
}

pub open spec fn right_pred(q: Seq<usize>, i: int, c: int) -> spec_fn(int) -> bool {
    |j: int| same_right_diagonal(q, i, c, j)
}

/// The other queens in column `c`, for a queen placed at `(i, c)`.
pub open spec fn column_count(q: Seq<usize>, i: int, c: int) -> nat {
    count_below(q.len() as int, column_pred(q, i, c))
}

/// The other queens on the lower-column diagonal of `(i, c)`.
pub open spec fn left_count(q: Seq<usize>, i: int, c: int) -> nat {
    count_below(q.len() as int, left_pred(q, i, c))
}

/// The other queens on the higher-column diagonal of `(i, c)`.
pub open spec fn right_count(q: Seq<usize>, i: int, c: int) -> nat {
    count_below(q.len() as int, right_pred(q, i, c))
}

/// The cost that queen `i` would have in column `c`, the other queens staying
/// where they are.
pub open spec fn conflicts_at(q: Seq<usize>, i: int, c: int) -> nat {
    column_count(q, i, c) + left_count(q, i, c) + right_count(q, i, c)
}

/// The cost of queen `i` where it stands.
pub open spec fn queen_cost(q: Seq<usize>, i: int) -> nat {
    conflicts_at(q, i, q[i] as int)
}

pub open spec fn queen_cost_fn(q: Seq<usize>) -> spec_fn(int) -> nat {
    |i: int| queen_cost(q, i)
}

/// The cost of the whole board: the sum of the costs of its queens.
pub open spec fn total_cost(q: Seq<usize>) -> nat {
    sum_below(q.len() as int, queen_cost_fn(q))
}

/// Queen `j` attacks the square in row `i` and column `c`.
pub open spec fn threatens(q: Seq<usize>, i: int, c: int, j: int) -> bool {
    same_column(q, i, c, j) || same_left_diagonal(q, i, c, j) || same_right_diagonal(q, i, c, j)
}

pub open spec fn threat_pred(q: Seq<usize>, i: int, c: int) -> spec_fn(int) -> bool {
    |j: int| threatens(q, i, c, j)
}

/// Queens `i` and `j` attack each other.
pub open spec fn attacks(q: Seq<usize>, i: int, j: int) -> bool {
    threatens(q, i, q[i] as int, j)
}

pub open spec fn attack_pred(q: Seq<usize>, i: int) -> spec_fn(int) -> bool {
    |j: int| attacks(q, i, j)
}

/// Every column of `q` lies on a board of `n` columns, one queen per row.
pub open spec fn valid_positions(q: Seq<usize>, n: int) -> bool {
    q.len() == n && forall|i: int| 0 <= i < n ==> #[trigger] q[i] < n
}

/// No two queens of `q` attack each other.
pub open spec fn is_solution(q: Seq<usize>) -> bool {
    forall|i: int, j: int| 0 <= i < q.len() && 0 <= j < q.len() ==> !#[trigger] attacks(q, i, j)
}

/// Queen `w` has the highest cost on the board.
pub open spec fn is_worst_queen(q: Seq<usize>, w: int) -> bool {
    &&& 0 <= w < q.len()
    &&& forall|i: int| 0 <= i < q.len() ==> #[trigger] queen_cost(q, i) <= queen_cost(q, w)
}

/// Column `c` is, among the columns other than its own, one where queen `w`
/// would have the lowest cost.
pub open spec fn is_best_column(q: Seq<usize>, w: int, c: int) -> bool {
    &&& 0 <= c < q.len()
    &&& c != q[w]
    &&& forall|d: int|
        0 <= d < q.len() && d != q[w] ==> conflicts_at(q, w, c) <= #[trigger] conflicts_at(q, w, d)
}

/// Row `i` of a relation, as a predicate on `j`.
pub open spec fn row_pred(rel: spec_fn(int, int) -> bool, i: int) -> spec_fn(int) -> bool {
    |j: int| rel(i, j)
}

/// Column `j` of a relation, as a predicate on `i`.
pub open spec fn col_pred(rel: spec_fn(int, int) -> bool, j: int) -> spec_fn(int) -> bool {
    |i: int| rel(i, j)
}

/// The pairs `(i, j)` with `i < rows`, `j < cols` and `rel(i, j)`.
pub open spec fn rel_count(rel: spec_fn(int, int) -> bool, rows: int, cols: int) -> nat
    decreases rows,
{
    if rows <= 0 {
        0
    } else {
        rel_count(rel, rows - 1, cols) + count_below(cols, row_pred(rel, rows - 1))
    }
}

/// The pairs `(i, j)` with `j < i < k` and `rel(i, j)`.
pub open spec fn lower_count(rel: spec_fn(int, int) -> bool, k: int) -> nat
    decreases k,
{
    if k <= 0 {
        0
    } else {
        lower_count(rel, k - 1) + count_below(k - 1, row_pred(rel, k - 1))
    }
}

pub open spec fn attack_rel(q: Seq<usize>) -> spec_fn(int, int) -> bool {
    |i: int, j: int| attacks(q, i, j)
}

pub open spec fn column_rel(q: Seq<usize>) -> spec_fn(int, int) -> bool {
    |i: int, j: int| same_column(q, i, q[i] as int, j)
}

pub open spec fn left_rel(q: Seq<usize>) -> spec_fn(int, int) -> bool {
    |i: int, j: int| same_left_diagonal(q, i, q[i] as int, j)
}

pub open spec fn right_rel(q: Seq<usize>) -> spec_fn(int, int) -> bool {
    |i: int, j: int| same_right_diagonal(q, i, q[i] as int, j)
}

/// The number of attacking pairs of queens, each pair counted once.
pub open spec fn attacking_pairs(q: Seq<usize>) -> nat {
    lower_count(attack_rel(q), q.len() as int)
}

/// The sum over all queens of the same-column part of their cost.
pub open spec fn column_total(q: Seq<usize>) -> nat {
    sum_below(q.len() as int, |i: int| column_count(q, i, q[i] as int))
}

/// The sum over all queens of the lower-column-diagonal part of their cost.
pub open spec fn left_total(q: Seq<usize>) -> nat {
    sum_below(q.len() as int, |i: int| left_count(q, i, q[i] as int))
}

/// The sum over all queens of the higher-column-diagonal part of their cost.
pub open spec fn right_total(q: Seq<usize>) -> nat {
    sum_below(q.len() as int, |i: int| right_count(q, i, q[i] as int))
}

pub proof fn lemma_count_bound(k: int, p: spec_fn(int) -> bool)
    requires
        0 <= k,
    ensures
        count_below(k, p) <= k,
    decreases k,
{
    if k > 0 {
        lemma_count_bound(k - 1, p);
    }
}

/// Counting is unchanged by predicates that agree below `k`.
pub proof fn lemma_count_congruent(k: int, p1: spec_fn(int) -> bool, p2: spec_fn(int) -> bool)
    requires
        forall|x: int| #![trigger p1(x)] #![trigger p2(x)] 0 <= x < k ==> p1(x) == p2(x),
    ensures
        count_below(k, p1) == count_below(k, p2),
    decreases k,
{
    if k > 0 {
        lemma_count_congruent(k - 1, p1, p2);
    }
}

/// A count is zero exactly when no `x` below `k` satisfies the predicate.
pub proof fn lemma_count_zero(k: int, p: spec_fn(int) -> bool)
    ensures
        count_below(k, p) == 0 <==> forall|x: int| 0 <= x < k ==> !#[trigger] p(x),
    decreases k,
{
    if k > 0 {
        lemma_count_zero(k - 1, p);
        if count_below(k, p) == 0 {
            assert forall|x: int| 0 <= x < k implies !#[trigger] p(x) by {
                if x < k - 1 {
                } else {
                }
            }
        }
    }
}

/// Three pairwise exclusive predicates count together as their union.
pub proof fn lemma_count_union3(
    k: int,
    p1: spec_fn(int) -> bool,
    p2: spec_fn(int) -> bool,
    p3: spec_fn(int) -> bool,
    u: spec_fn(int) -> bool,
)
    requires
        forall|x: int| 0 <= x < k ==> #[trigger] u(x) == (p1(x) || p2(x) || p3(x)),
        forall|x: int|
            #![trigger p1(x)]
            #![trigger p2(x)]
            #![trigger p3(x)]
            0 <= x < k ==> !(p1(x) && p2(x)) && !(p1(x) && p3(x)) && !(p2(x) && p3(x)),
    ensures
        count_below(k, p1) + count_below(k, p2) + count_below(k, p3) == count_below(k, u),
    decreases k,
{
    if k > 0 {
        lemma_count_union3(k - 1, p1, p2, p3, u);
    }
}

/// A sum is zero exactly when every term below `k` is zero.
pub proof fn lemma_sum_zero(k: int, f: spec_fn(int) -> nat)
    ensures
        sum_below(k, f) == 0 <==> forall|x: int| 0 <= x < k ==> #[trigger] f(x) == 0,
    decreases k,
{
    if k > 0 {
        lemma_sum_zero(k - 1, f);
        if sum_below(k, f) == 0 {
            assert forall|x: int| 0 <= x < k implies #[trigger] f(x) == 0 by {
                if x < k - 1 {
                } else {
                }
            }
        }
    }
}

/// The three counts of a square are the count of the queens that attack it:
/// no queen lies in two of the three lines.
pub proof fn lemma_conflicts_are_threats(q: Seq<usize>, i: int, c: int)
    ensures
        conflicts_at(q, i, c) == count_below(q.len() as int, threat_pred(q, i, c)),
        conflicts_at(q, i, c) <= q.len(),
{
    lemma_count_union3(
        q.len() as int,
        column_pred(q, i, c),
        left_pred(q, i, c),
        right_pred(q, i, c),
        threat_pred(q, i, c),
    );
    lemma_count_bound(q.len() as int, threat_pred(q, i, c));
}

/// The cost of queen `i` is the number of queens that it attacks.
pub proof fn lemma_cost_is_attacks(q: Seq<usize>, i: int)
    ensures
        queen_cost(q, i) == count_below(q.len() as int, attack_pred(q, i)),
        queen_cost(q, i) <= q.len(),
{
    lemma_conflicts_are_threats(q, i, q[i] as int);
    lemma_count_congruent(q.len() as int, threat_pred(q, i, q[i] as int), attack_pred(q, i));
}

/// Conflicts are symmetric: queen `j` shares queen `i`'s column exactly when
/// queen `i` shares queen `j`'s, and queen `j` lies on queen `i`'s
/// lower-column diagonal exactly when queen `i` lies on queen `j`'s
/// higher-column diagonal.
pub proof fn lemma_conflict_symmetric(q: Seq<usize>, i: int, j: int)
    requires
        i != j,
    ensures
        same_column(q, i, q[i] as int, j) <==> same_column(q, j, q[j] as int, i),
        same_left_diagonal(q, i, q[i] as int, j) <==> same_right_diagonal(q, j, q[j] as int, i),
        same_right_diagonal(q, i, q[i] as int, j) <==> same_left_diagonal(q, j, q[j] as int, i),
        attacks(q, i, j) <==> attacks(q, j, i),
{
}

/// Adding a column to a relation's count adds the pairs in that column.
proof fn lemma_rel_count_column(rel: spec_fn(int, int) -> bool, rows: int, cols: int)
    requires
        0 <= cols,
    ensures
        rel_count(rel, rows, cols + 1) == rel_count(rel, rows, cols) + count_below(
            rows,
            col_pred(rel, cols),
        ),
    decreases rows,
{
    if rows > 0 {
        lemma_rel_count_column(rel, rows - 1, cols);
    }
}

/// A symmetric relation without loops counts each of its pairs twice.
pub proof fn lemma_rel_symmetric(rel: spec_fn(int, int) -> bool, k: int)
    requires
        0 <= k,
        forall|i: int, j: int| #[trigger] rel(i, j) == rel(j, i),
        forall|i: int| !#[trigger] rel(i, i),
    ensures
        rel_count(rel, k, k) == 2 * lower_count(rel, k),
    decreases k,
{
    if k > 0 {
        let m = k - 1;
        lemma_rel_symmetric(rel, m);
        lemma_rel_count_column(rel, m, m);
        assert forall|x: int| 0 <= x < m implies #[trigger] col_pred(rel, m)(x) == row_pred(
            rel,
            m,
        )(x) by {
            assert(rel(x, m) == rel(m, x));
        }
        lemma_count_congruent(m, col_pred(rel, m), row_pred(rel, m));
        assert(!rel(m, m));
    }
}

/// A relation and its transpose hold the same number of pairs.
pub proof fn lemma_rel_transpose(rel: spec_fn(int, int) -> bool, tr: spec_fn(int, int) -> bool, k: int)
    requires
        0 <= k,
        forall|i: int, j: int| #![trigger rel(i, j)] #![trigger tr(j, i)] rel(i, j) == tr(j, i),
    ensures
        rel_count(rel, k, k) == rel_count(tr, k, k),
    decreases k,
{
    if k > 0 {
        let m = k - 1;
        lemma_rel_transpose(rel, tr, m);
        lemma_rel_count_column(rel, m, m);
        lemma_rel_count_column(tr, m, m);
        assert forall|x: int| 0 <= x < m implies #[trigger] col_pred(rel, m)(x) == row_pred(
            tr,
            m,
        )(x) by {
            assert(rel(x, m) == tr(m, x));
        }
        assert forall|x: int| 0 <= x < m implies #[trigger] row_pred(rel, m)(x) == col_pred(
            tr,
            m,
        )(x) by {
            assert(rel(m, x) == tr(x, m));
        }
        lemma_count_congruent(m, col_pred(rel, m), row_pred(tr, m));
        lemma_count_congruent(m, row_pred(rel, m), col_pred(tr, m));
        assert(rel(m, m) == tr(m, m));
    }
}

/// A sum whose terms count the rows of a relation is the relation's count.
proof fn lemma_sum_rows(f: spec_fn(int) -> nat, rel: spec_fn(int, int) -> bool, k: int, cols: int)
    requires
        forall|i: int| 0 <= i < k ==> #[trigger] f(i) == count_below(cols, row_pred(rel, i)),
    ensures
        sum_below(k, f) == rel_count(rel, k, cols),
    decreases k,
{
    if k > 0 {
        lemma_sum_rows(f, rel, k - 1, cols);
    }
}

/// The total cost of a board is twice the number of attacking pairs, since
/// each pair is counted from both of its queens; so it is even, and it is
/// zero exactly when no two queens attack each other.
pub proof fn lemma_total_cost_even(q: Seq<usize>)
    ensures
        total_cost(q) == 2 * attacking_pairs(q),
        total_cost(q) % 2 == 0,
        total_cost(q) == 0 <==> is_solution(q),
{
    let n = q.len() as int;
    let rel = attack_rel(q);
    assert forall|i: int| 0 <= i < n implies #[trigger] queen_cost_fn(q)(i) == count_below(
        n,
        row_pred(rel, i),
    ) by {
        lemma_cost_is_attacks(q, i);
        lemma_count_congruent(n, attack_pred(q, i), row_pred(rel, i));
    }
    lemma_sum_rows(queen_cost_fn(q), rel, n, n);
    assert forall|i: int, j: int| #[trigger] rel(i, j) == rel(j, i) by {
        if i != j {
            lemma_conflict_symmetric(q, i, j);
        }
    }
    lemma_rel_symmetric(rel, n);
    lemma_sum_zero(n, queen_cost_fn(q));
    if total_cost(q) == 0 {
        assert forall|i: int, j: int| 0 <= i < n && 0 <= j < n implies !#[trigger] attacks(
            q,
            i,
            j,
        ) by {
            assert(queen_cost_fn(q)(i) == 0);
            lemma_cost_is_attacks(q, i);
            lemma_count_zero(n, attack_pred(q, i));
            assert(!attack_pred(q, i)(j));
        }
    }
    if is_solution(q) {
        assert forall|i: int| 0 <= i < n implies #[trigger] queen_cost_fn(q)(i) == 0 by {
            lemma_cost_is_attacks(q, i);
            lemma_count_zero(n, attack_pred(q, i));
            assert forall|j: int| 0 <= j < n implies !#[trigger] attack_pred(q, i)(j) by {
                assert(!attacks(q, i, j));
            }
        }
    }
}

/// Summed over all queens, the same-column counts are even (each pair
/// sharing a column is counted from both queens), and the lower-column
/// diagonal counts equal the higher-column diagonal counts (a queen on
/// another's lower-column diagonal has that queen on its higher-column one).
pub proof fn lemma_line_totals(q: Seq<usize>)
    ensures
        column_total(q) == 2 * lower_count(column_rel(q), q.len() as int),
        column_total(q) % 2 == 0,
        left_total(q) == right_total(q),
{
    let n = q.len() as int;
    let cf = |i: int| column_count(q, i, q[i] as int);
    let lf = |i: int| left_count(q, i, q[i] as int);
    let rf = |i: int| right_count(q, i, q[i] as int);
    assert forall|i: int| 0 <= i < n implies #[trigger] cf(i) == count_below(
        n,
        row_pred(column_rel(q), i),
    ) by {
        lemma_count_congruent(n, column_pred(q, i, q[i] as int), row_pred(column_rel(q), i));
    }
    assert forall|i: int| 0 <= i < n implies #[trigger] lf(i) == count_below(
        n,
        row_pred(left_rel(q), i),
    ) by {
        lemma_count_congruent(n, left_pred(q, i, q[i] as int), row_pred(left_rel(q), i));
    }
    assert forall|i: int| 0 <= i < n implies #[trigger] rf(i) == count_below(
        n,
        row_pred(right_rel(q), i),
    ) by {
        lemma_count_congruent(n, right_pred(q, i, q[i] as int), row_pred(right_rel(q), i));
    }
    lemma_sum_rows(cf, column_rel(q), n, n);
    lemma_sum_rows(lf, left_rel(q), n, n);
    lemma_sum_rows(rf, right_rel(q), n, n);
    assert forall|i: int, j: int| #[trigger] column_rel(q)(i, j) == column_rel(q)(j, i) by {
        if i != j {
            lemma_conflict_symmetric(q, i, j);
        }
    }
    lemma_rel_symmetric(column_rel(q), n);
    assert forall|i: int, j: int| #[trigger] left_rel(q)(i, j) == right_rel(q)(j, i) by {
        if i != j {
            lemma_conflict_symmetric(q, i, j);
        }
    }
    lemma_rel_transpose(left_rel(q), right_rel(q), n);
}

} // verus!
