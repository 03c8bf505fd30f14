//! Index logic of classical multidimensional scaling.

use vstd::prelude::*;

verus! {

/// Errors reported by multidimensional scaling.
#[derive(Debug, PartialEq, Eq, Structural, Clone, Copy)]
pub enum MultidimensionalScalingError {
    /// The number of features to embed is zero or exceeds the matrix dimension.
    InvalidCount,
}

/// A feature count is valid when it lies in `1..=feature_dim`.
pub open spec fn valid_feature_count(feature_count: nat, feature_dim: nat) -> bool {
    1 <= feature_count <= feature_dim
}

/// Every count from one up to the matrix dimension is valid, and no other: a subset of
/// the features may be embedded, the rest of the matrix being padding.
pub proof fn lemma_valid_feature_counts(feature_count: nat, feature_dim: nat)
    ensures
        valid_feature_count(feature_count, feature_dim) <==> (1 <= feature_count
            && feature_count <= feature_dim),
        1 <= feature_count && feature_count <= feature_dim ==> valid_feature_count(
            feature_count,
            feature_dim,
        ),
        feature_count == 0 ==> !valid_feature_count(feature_count, feature_dim),
        feature_count > feature_dim ==> !valid_feature_count(feature_count, feature_dim),
{
}

/// Checks the number of features that take part in the embedding.
pub fn check_feature_count(feature_count: usize, feature_dim: usize) -> (r: Result<
    (),
    MultidimensionalScalingError,
>)
    ensures
        r is Ok <==> valid_feature_count(feature_count as nat, feature_dim as nat),
        r is Ok <==> 1 <= feature_count && feature_count <= feature_dim,
        r is Err <==> feature_count == 0 || feature_count > feature_dim,
        r is Err ==> r == Err::<(), _>(MultidimensionalScalingError::InvalidCount),
{
    if feature_count < 1 || feature_count > feature_dim {
        return Err(MultidimensionalScalingError::InvalidCount);
    }
    Ok(())
}


/// The comparison table `greater` seen as a sequence of rows:
/// `relation_of(greater)[a][b]` tells whether eigenvalue `a` is strictly greater than eigenvalue `b`.
pub open spec fn relation_of(greater: &Vec<Vec<bool>>) -> Seq<Seq<bool>> {
    greater@.map_values(|row: Vec<bool>| row@)
}

/// Every row of the comparison table has one entry per eigenvalue.
pub open spec fn is_square(g: Seq<Seq<bool>>) -> bool {
    forall|a: int| 0 <= a < g.len() ==> #[trigger] g[a].len() == g.len()
}

/// The comparison is a strict partial order: irreflexive and transitive.
/// Floating-point `>` is one on every input, NaN included.
pub open spec fn is_strict_order(g: Seq<Seq<bool>>) -> bool {
    &&& is_square(g)
    &&& forall|a: int| 0 <= a < g.len() ==> !#[trigger] g[a][a]
    &&& forall|a: int, b: int, c: int|
        0 <= a < g.len() && 0 <= b < g.len() && 0 <= c < g.len() && #[trigger] g[a][b]
            && #[trigger] g[b][c] ==> g[a][c]
}

/// Position of the running maximum after scanning the positions `first..end` of `order`:
/// the scan starts at `first` and moves to a later position only when the eigenvalue
/// there is strictly greater than the current maximum.
pub open spec fn running_max(g: Seq<Seq<bool>>, order: Seq<usize>, first: int, end: int) -> int
    decreases end - first,
{
    if end <= first + 1 {
        first
    } else {
        let m = running_max(g, order, first, end - 1);
        if g[order[end - 1] as int][order[m] as int] {
            end - 1
        } else {
            m
        }
    }
}

/// Exchanges the entries at positions `i` and `j`.
pub open spec fn swap_positions(s: Seq<usize>, i: int, j: int) -> Seq<usize> {
    s.update(i, s[j]).update(j, s[i])
}

/// The identity arrangement `0, 1, .., n - 1`.
pub open spec fn identity_order(n: nat) -> Seq<usize> {
    Seq::new(n, |k: int| k as usize)
}

/// The arrangement of the eigenvalue indices after `steps` rounds of selection:
/// round `k` moves the running maximum of positions `k..n` to position `k`.
pub open spec fn selection_order(g: Seq<Seq<bool>>, steps: nat) -> Seq<usize>
    decreases steps,
{
    if steps == 0 {
        identity_order(g.len())
    } else {
        let prev = selection_order(g, (steps - 1) as nat);
        swap_positions(prev, steps - 1, running_max(g, prev, steps - 1, g.len() as int))
    }
}

/// `s` arranges the indices `0..n`, each exactly once.
pub open spec fn is_permutation(s: Seq<usize>, n: nat) -> bool {
    &&& s.len() == n
    &&& forall|k: int| 0 <= k < n ==> #[trigger] s[k] < n
    &&& forall|p: int, q: int| 0 <= p < n && 0 <= q < n && p != q ==> #[trigger] s[p] != #[trigger] s[q]
}

/// No index placed later in `s` has a strictly greater eigenvalue than one placed earlier.
pub open spec fn is_descending(g: Seq<Seq<bool>>, s: Seq<usize>) -> bool {
    forall|p: int, q: int|
        0 <= p < q < s.len() ==> !g[#[trigger] s[q] as int][#[trigger] s[p] as int]
}

proof fn lemma_running_max_bounds(g: Seq<Seq<bool>>, order: Seq<usize>, first: int, end: int)
    requires
        first < end,
    ensures
        first <= running_max(g, order, first, end) < end,
    decreases end - first,
{
    if end > first + 1 {
        lemma_running_max_bounds(g, order, first, end - 1);
    }
}


proof fn lemma_swap_keeps_permutation(s: Seq<usize>, n: nat, i: int, j: int)
    requires
        is_permutation(s, n),
        0 <= i < n,
        0 <= j < n,
    ensures
        is_permutation(swap_positions(s, i, j), n),
{
    let t = swap_positions(s, i, j);
    assert forall|k: int| 0 <= k < n implies #[trigger] t[k] < n by {
        if k == j {
        } else if k == i {
        } else {
        }
    }
    assert forall|p: int, q: int| 0 <= p < n && 0 <= q < n && p != q implies #[trigger] t[p]
        != #[trigger] t[q] by {
        let sp = if p == j { i } else if p == i { j } else { p };
        let sq = if q == j { i } else if q == i { j } else { q };
        assert(t[p] == s[sp]);
        assert(t[q] == s[sq]);
    }
}

/// Every round of selection keeps an arrangement of all eigenvalue indices, each once.
pub proof fn lemma_selection_order_is_permutation(g: Seq<Seq<bool>>, steps: nat)
    requires
        steps <= g.len() <= usize::MAX,
    ensures
        is_permutation(selection_order(g, steps), g.len()),
    decreases steps,
{
    if steps == 0 {
        let s = selection_order(g, 0);
        assert forall|p: int, q: int| 0 <= p < g.len() && 0 <= q < g.len() && p != q implies #[trigger] s[p]
            != #[trigger] s[q] by {
            assert(s[p] == p);
            assert(s[q] == q);
        }
    } else {
        let prev = selection_order(g, (steps - 1) as nat);
        lemma_selection_order_is_permutation(g, (steps - 1) as nat);
        lemma_running_max_bounds(g, prev, steps - 1, g.len() as int);
        lemma_swap_keeps_permutation(
            prev,
            g.len(),
            steps - 1,
            running_max(g, prev, steps - 1, g.len() as int),
        );
    }
}

proof fn lemma_running_max_dominates(
    g: Seq<Seq<bool>>,
    s: Seq<usize>,
    first: int,
    end: int,
)
    requires
        is_strict_order(g),
        is_permutation(s, g.len()),
        0 <= first < end <= g.len(),
    ensures
        forall|x: int|
            first <= x < end && x != running_max(g, s, first, end) ==> !g[#[trigger] s[x] as int][s[running_max(
                g,
                s,
                first,
                end,
            )] as int],
    decreases end - first,
{
    let m = running_max(g, s, first, end);
    if end > first + 1 {
        let m0 = running_max(g, s, first, end - 1);
        lemma_running_max_dominates(g, s, first, end - 1);
        lemma_running_max_bounds(g, s, first, end - 1);
        let e = end - 1;
        if g[s[e] as int][s[m0] as int] {
            assert forall|x: int| first <= x < end && x != m implies !g[#[trigger] s[x] as int][s[m] as int] by {
                if x == m0 {
                    if g[s[m0] as int][s[e] as int] {
                        assert(g[s[m0] as int][s[m0] as int]);
                    }
                } else {
                    if g[s[x] as int][s[e] as int] {
                        assert(g[s[x] as int][s[m0] as int]);
                    }
                }
            }
        }
    }
}

proof fn lemma_prefix_dominates(g: Seq<Seq<bool>>, steps: nat)
    requires
        is_strict_order(g),
        steps <= g.len() <= usize::MAX,
    ensures
        forall|p: int, q: int|
            0 <= p < steps && p < q < g.len() ==> !g[#[trigger] selection_order(g, steps)[q] as int][#[trigger] selection_order(
                g,
                steps,
            )[p] as int],
    decreases steps,
{
    if steps > 0 {
        let k = steps - 1;
        let prev = selection_order(g, k as nat);
        let n = g.len() as int;
        lemma_prefix_dominates(g, k as nat);
        lemma_selection_order_is_permutation(g, k as nat);
        lemma_running_max_bounds(g, prev, k, n);
        lemma_running_max_dominates(g, prev, k, n);
        let m = running_max(g, prev, k, n);
        let t = selection_order(g, steps);
        assert(t == swap_positions(prev, k, m));
        assert forall|p: int, q: int| 0 <= p < steps && p < q < n implies !g[#[trigger] t[q] as int][#[trigger] t[p] as int] by {
            let sq = if q == m { k } else if q == k { m } else { q };
            assert(t[q] == prev[sq]);
            if p < k {
                assert(t[p] == prev[p]);
                assert(!g[prev[sq] as int][prev[p] as int]);
            } else {
                assert(t[p] == prev[m]);
            }
        }
    }
}

/// Selection leaves the indices in descending order of eigenvalue whenever the
/// comparison is a strict partial order: no index placed later has a strictly
/// greater eigenvalue than one placed earlier.
pub proof fn lemma_selection_order_is_descending(g: Seq<Seq<bool>>)
    requires
        is_strict_order(g),
        g.len() <= usize::MAX,
    ensures
        is_descending(g, selection_order(g, g.len())),
{
    lemma_prefix_dominates(g, g.len());
    lemma_selection_order_is_permutation(g, g.len());
    let s = selection_order(g, g.len());
    assert forall|p: int, q: int| 0 <= p < q < s.len() implies !g[#[trigger] s[q] as int][#[trigger] s[p] as int] by {
    }
}

/// Orders the eigenvalue indices from the largest eigenvalue down, by selection:
/// round `k` finds the first strictly-greatest eigenvalue among positions `k..n`
/// (scanning left to right and moving on only to a strictly greater one) and swaps
/// it into position `k`. `greater[a][b]` holds the comparison of eigenvalue `a`
/// against eigenvalue `b`; the result gives, for each output position, the index of
/// the eigenvalue (and eigenvector column) that ends up there.
pub fn descending_order(greater: &Vec<Vec<bool>>) -> (order: Vec<usize>)
    requires
        is_square(relation_of(greater)),
    ensures
        order@ == selection_order(relation_of(greater), greater@.len()),
        is_permutation(order@, greater@.len()),
        is_strict_order(relation_of(greater)) ==> is_descending(relation_of(greater), order@),
{
    let ghost g = relation_of(greater);
    let n = greater.len();
    let mut order: Vec<usize> = Vec::new();
    for k in 0..n
        invariant
            n == greater@.len(),
            order@ =~= Seq::new(k as nat, |i: int| i as usize),
    {
        order.push(k);
    }
    assert(order@ =~= selection_order(g, 0));
    for i in 0..n
        invariant
            n == greater@.len(),
            g == relation_of(greater),
            is_square(g),
            order@ == selection_order(g, i as nat),
    {
        proof {
            lemma_selection_order_is_permutation(g, i as nat);
        }
        let ghost prev = order@;
        let mut max_index = i;
        for j in (i + 1)..n
            invariant
                n == greater@.len(),
                g == relation_of(greater),
                is_square(g),
                order@ == prev,
                is_permutation(prev, n as nat),
                i < n,
                i <= max_index < j,
                max_index == running_max(g, prev, i as int, j as int),
        {
            let a = order[j];
            let b = order[max_index];
            assert(g[a as int][b as int] == greater@[a as int]@[b as int]);
            if greater[a][b] {
                max_index = j;
            }
        }
        proof {
            lemma_running_max_bounds(g, prev, i as int, n as int);
        }
        if max_index != i {
            let a = order[i];
            let b = order[max_index];
            order.set(i, b);
            order.set(max_index, a);
        } else {
            assert(swap_positions(prev, i as int, i as int) =~= prev);
        }
    }
    proof {
        lemma_selection_order_is_permutation(g, n as nat);
        if is_strict_order(g) {
            lemma_selection_order_is_descending(g);
        }
    }
    order
}


/// Where an entry stands in the centering matrix `I - (1/n) 1 1ᵀ` that acts on the
/// first `n` features and is zero elsewhere.
#[derive(Debug, PartialEq, Eq, Structural, Clone, Copy)]
pub enum CenteringEntry {
    /// Row or column lies beyond the features in use: the entry is `0`.
    Outside,
    /// A diagonal entry among the features in use: the entry is `1 - 1/n`.
    Diagonal,
    /// An off-diagonal entry among the features in use: the entry is `-1/n`.
    OffDiagonal,
}

pub open spec fn centering_entry_of(row: nat, column: nat, feature_count: nat) -> CenteringEntry {
    if row >= feature_count || column >= feature_count {
        CenteringEntry::Outside
    } else if row == column {
        CenteringEntry::Diagonal
    } else {
        CenteringEntry::OffDiagonal
    }
}

/// Classifies entry `(row, column)` of the centering matrix for `feature_count` features.
pub fn centering_entry(row: usize, column: usize, feature_count: usize) -> (e: CenteringEntry)
    ensures
        e == centering_entry_of(row as nat, column as nat, feature_count as nat),
{
    if row >= feature_count || column >= feature_count {
        CenteringEntry::Outside
    } else if row == column {
        CenteringEntry::Diagonal
    } else {
        CenteringEntry::OffDiagonal
    }
}

/// The value of a centering entry multiplied by `n`: `n - 1`, `-1` or `0`.
pub open spec fn scaled_centering_value(e: CenteringEntry, n: nat) -> int {
    match e {
        CenteringEntry::Outside => 0,
        CenteringEntry::Diagonal => n - 1,
        CenteringEntry::OffDiagonal => -1,
    }
}

/// Entry `(row, column)` of `n` times the centering matrix.
pub open spec fn scaled_centering(row: nat, column: nat, n: nat) -> int {
    scaled_centering_value(centering_entry_of(row, column, n), n)
}

/// Sum of the first `len` entries of row `row` of `n` times the centering matrix.
pub open spec fn scaled_row_sum(row: nat, n: nat, len: nat) -> int
    decreases len,
{
    if len == 0 {
        0
    } else {
        scaled_row_sum(row, n, (len - 1) as nat) + scaled_centering(row, (len - 1) as nat, n)
    }
}

/// Entry `(row, column)` of the product of `n` times the centering matrix with itself,
/// summed over the first `len` inner indices.
pub open spec fn scaled_square_entry(row: nat, column: nat, n: nat, len: nat) -> int
    decreases len,
{
    if len == 0 {
        0
    } else {
        let k = (len - 1) as nat;
        scaled_square_entry(row, column, n, k) + scaled_centering(row, k, n) * scaled_centering(
            k,
            column,
            n,
        )
    }
}

/// The centering matrix is symmetric.
pub proof fn lemma_centering_is_symmetric(row: nat, column: nat, n: nat)
    ensures
        centering_entry_of(row, column, n) == centering_entry_of(column, row, n),
{
}

proof fn lemma_row_sum_partial(row: nat, n: nat, len: nat)
    ensures
        row >= n ==> scaled_row_sum(row, n, len) == 0,
        row < n && len <= n ==> scaled_row_sum(row, n, len) == (if row < len { n as int } else { 0 }) - len,
        row < n && len > n ==> scaled_row_sum(row, n, len) == scaled_row_sum(row, n, n),
    decreases len,
{
    if len > 0 {
        lemma_row_sum_partial(row, n, (len - 1) as nat);
    }
}

/// Every row of the centering matrix sums to zero over any number `dim >= n` of
/// columns: centering maps constant vectors to zero.
pub proof fn lemma_centering_rows_sum_to_zero(row: nat, n: nat, dim: nat)
    requires
        n <= dim,
    ensures
        scaled_row_sum(row, n, dim) == 0,
{
    lemma_row_sum_partial(row, n, dim);
    lemma_row_sum_partial(row, n, n);
}

proof fn lemma_square_term(row: nat, column: nat, k: nat, n: nat)
    requires
        row < n,
        column < n,
        k < n,
    ensures
        scaled_centering(row, k, n) * scaled_centering(k, column, n) == (if row == k && k == column {
            n * n
        } else {
            0
        }) - (if row == k { n as int } else { 0 }) - (if k == column { n as int } else { 0 }) + 1,
{
    let a = scaled_centering(row, k, n);
    let b = scaled_centering(k, column, n);
    if row == k && k == column {
        assert((n - 1) * (n - 1) == n * n - n - n + 1) by (nonlinear_arith);
    } else if row == k {
        assert(a == n - 1 && b == -1);
        assert((n - 1) * -1 == 1 - n) by (nonlinear_arith);
    } else if k == column {
        assert(a == -1 && b == n - 1);
        assert(-1 * (n - 1) == 1 - n) by (nonlinear_arith);
    } else {
        assert(a == -1 && b == -1);
    }
}

proof fn lemma_square_partial(row: nat, column: nat, n: nat, len: nat)
    ensures
        (row >= n || column >= n) ==> scaled_square_entry(row, column, n, len) == 0,
        row < n && column < n && len <= n ==> scaled_square_entry(row, column, n, len) == (if row
            == column && row < len {
            n * n
        } else {
            0
        }) - (if row < len { n as int } else { 0 }) - (if column < len { n as int } else { 0 })
            + len,
        row < n && column < n && len > n ==> scaled_square_entry(row, column, n, len)
            == scaled_square_entry(row, column, n, n),
    decreases len,
{
    if len > 0 {
        let k = (len - 1) as nat;
        lemma_square_partial(row, column, n, k);
        if row < n && column < n && k < n {
            lemma_square_term(row, column, k, n);
        }
        if row >= n {
            assert(scaled_centering(row, k, n) == 0);
        }
        if column >= n {
            assert(scaled_centering(k, column, n) == 0);
        }
        if k >= n {
            assert(scaled_centering(row, k, n) == 0);
        }
    }
}

/// The centering matrix is idempotent, summing over any number `dim >= n` of inner
/// indices: `(nC)(nC) = n (nC)`, that is `C C = C`.
pub proof fn lemma_centering_is_idempotent(row: nat, column: nat, n: nat, dim: nat)
    requires
        n <= dim,
    ensures
        scaled_square_entry(row, column, n, dim) == n * scaled_centering(row, column, n),
{
    lemma_square_partial(row, column, n, dim);
    lemma_square_partial(row, column, n, n);
    if row < n && column < n {
        if row == column {
            assert(n * (n - 1) == n * n - n) by (nonlinear_arith);
        } else {
            assert(n * -1 == -n) by (nonlinear_arith);
        }
    } else {
        assert(n * 0 == 0) by (nonlinear_arith);
    }
}

/// Whether entry `(row, column)` of the embedding's diagonal holds the square root of
/// an eigenvalue (only diagonal entries among the features in use do).
pub fn keeps_eigenvalue(row: usize, column: usize, feature_count: usize) -> (keep: bool)
    ensures
        keep == (row == column && row < feature_count),
{
    row == column && row < feature_count
}

/// Whether entry `(row, column)` of the eigenvector block is copied into the embedding
/// (only entries whose row and column both lie among the features in use are).
pub fn keeps_eigenvector_entry(row: usize, column: usize, feature_count: usize) -> (keep: bool)
    ensures
        keep == (row < feature_count && column < feature_count),
{
    row < feature_count && column < feature_count
}

} // verus!
