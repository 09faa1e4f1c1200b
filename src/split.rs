//! Deterministic k-fold cross-validation over contiguous blocks of rows.
use vstd::prelude::*;
use vstd::arithmetic::div_mod::*;
use vstd::arithmetic::mul::*;

verus! {

/// Smaller of two naturals.
pub open spec fn min_nat(a: nat, b: nat) -> nat {
    if a <= b { a } else { b }
}

/// First row of block `i` when `n` rows are cut into `k` blocks whose sizes
/// differ by at most one (the first `n % k` blocks get the extra row).
pub open spec fn fold_start(n: nat, k: nat, i: nat) -> nat
    recommends k > 0,
{
    i * (n / k) + min_nat(i, n % k)
}

/// One past the last row of block `i`.
pub open spec fn fold_end(n: nat, k: nat, i: nat) -> nat {
    fold_start(n, k, i + 1)
}

/// Test rows of fold `i`: the rows of block `i`, in increasing order.
pub open spec fn test_rows(n: nat, k: nat, i: nat) -> Seq<usize> {
    let s = fold_start(n, k, i);
    let e = fold_end(n, k, i);
    Seq::new((e - s) as nat, |j: int| (s + j) as usize)
}

/// Training rows of fold `i`: every row outside block `i`, in increasing order.
pub open spec fn train_rows(n: nat, k: nat, i: nat) -> Seq<usize> {
    let s = fold_start(n, k, i);
    let e = fold_end(n, k, i);
    Seq::new((n - (e - s)) as nat, |j: int| if j < s { j as usize } else { (j + (e - s)) as usize })
}

/// Consecutive block boundaries grow by `n / k` or `n / k + 1`, and the last is `n`.
proof fn lemma_fold_bounds(n: nat, k: nat, i: nat)
    requires
        0 < k,
        i <= k,
    ensures
        fold_start(n, k, 0) == 0,
        fold_start(n, k, k) == n,
        fold_start(n, k, i) <= n,
        i < k ==> fold_start(n, k, i + 1) == fold_start(n, k, i) + n / k + (if i < n % k { 1nat } else { 0nat }),
{
    let q = n / k;
    let r = n % k;
    lemma_fundamental_div_mod(n as int, k as int);
    lemma_mod_bound(n as int, k as int);
    assert((i + 1) * q == i * q + q) by (nonlinear_arith);
    assert(i * q <= k * q) by (nonlinear_arith) requires i <= k;
    assert(0 * q == 0) by (nonlinear_arith);
    assert(k * q == q * k) by (nonlinear_arith);
}

/// Block boundaries never decrease.
proof fn lemma_fold_start_monotonic(n: nat, k: nat, i: nat, j: nat)
    requires
        0 < k,
        i <= j <= k,
    ensures
        fold_start(n, k, i) <= fold_start(n, k, j),
    decreases j - i,
{
    if i < j {
        lemma_fold_bounds(n, k, (j - 1) as nat);
        lemma_fold_start_monotonic(n, k, i, (j - 1) as nat);
    }
}

/// Every row below `n` lies in some block.
proof fn lemma_row_in_some_block(n: nat, k: nat, row: nat, i: nat)
    requires
        0 < k,
        i <= k,
        row < n,
        fold_start(n, k, i) <= row,
    ensures
        exists|b: nat| b < k && #[trigger] fold_start(n, k, b) <= row < fold_end(n, k, b),
    decreases k - i,
{
    lemma_fold_bounds(n, k, i);
    if i == k {
    } else if row < fold_end(n, k, i) {
    } else {
        lemma_row_in_some_block(n, k, row, i + 1);
    }
}

/// Row `row` is a test row of at least one of the `k` folds.
pub open spec fn tested_in_some_fold(n: nat, k: nat, row: usize) -> bool {
    exists|i: nat| i < k && #[trigger] test_rows(n, k, i).contains(row)
}

/// Membership in the test rows of fold `i` is membership in block `i`.
proof fn lemma_test_rows_contains(n: nat, k: nat, i: nat, row: usize)
    requires
        0 < k,
        i < k,
        n <= usize::MAX,
    ensures
        test_rows(n, k, i).contains(row) <==> fold_start(n, k, i) <= row < fold_end(n, k, i),
{
    lemma_fold_bounds(n, k, i);
    lemma_fold_bounds(n, k, k);
    lemma_fold_start_monotonic(n, k, i + 1, k);
    let t = test_rows(n, k, i);
    let s = fold_start(n, k, i);
    let e = fold_end(n, k, i);
    if t.contains(row) {
        let x = choose|x: int| 0 <= x < t.len() && t[x] == row;
        assert(t[x] == s + x);
    }
    if s <= row < e {
        assert(t[row - s] == row);
    }
}

/// Membership in the training rows of fold `i` is membership in `[0, n)` outside block `i`.
proof fn lemma_train_rows_contains(n: nat, k: nat, i: nat, row: usize)
    requires
        0 < k,
        i < k,
        n <= usize::MAX,
    ensures
        train_rows(n, k, i).contains(row) <==> (row < n && !(fold_start(n, k, i) <= row < fold_end(n, k, i))),
{
    lemma_fold_bounds(n, k, i);
    lemma_fold_bounds(n, k, k);
    lemma_fold_start_monotonic(n, k, i + 1, k);
    let t = train_rows(n, k, i);
    let s = fold_start(n, k, i);
    let e = fold_end(n, k, i);
    if t.contains(row) {
        let x = choose|x: int| 0 <= x < t.len() && t[x] == row;
        if x < s {
            assert(t[x] == x);
        } else {
            assert(t[x] == x + (e - s));
        }
    }
    if row < n && row < s {
        assert(t[row as int] == row);
    }
    if row < n && row >= e {
        assert(t[row - (e - s)] == row);
    }
}

/// The test rows of the `k` folds partition `[0, n)`: each row is tested in
/// exactly one fold. In every fold, training and test rows are disjoint and
/// together hold exactly the rows of `[0, n)`.
pub proof fn lemma_folds_partition(n: nat, k: nat)
    requires
        2 <= k <= n <= usize::MAX,
    ensures
        forall|row: usize| (row as nat) < n ==> #[trigger] tested_in_some_fold(n, k, row),
        forall|i: nat, j: nat, row: usize|
            i < k && j < k && #[trigger] test_rows(n, k, i).contains(row) && #[trigger] test_rows(n, k, j).contains(row)
                ==> i == j,
        forall|i: nat, row: usize|
            i < k ==> ((row as nat) < n <==> (#[trigger] train_rows(n, k, i).contains(row) || test_rows(n, k, i).contains(row))),
        forall|i: nat, row: usize|
            i < k ==> !(#[trigger] train_rows(n, k, i).contains(row) && test_rows(n, k, i).contains(row)),
{
    assert forall|row: usize| (row as nat) < n implies #[trigger] tested_in_some_fold(n, k, row) by {
        lemma_fold_bounds(n, k, 0);
        lemma_row_in_some_block(n, k, row as nat, 0);
        let b = choose|b: nat| b < k && #[trigger] fold_start(n, k, b) <= row < fold_end(n, k, b);
        lemma_test_rows_contains(n, k, b, row);
    }
    assert forall|i: nat, j: nat, row: usize|
        i < k && j < k && #[trigger] test_rows(n, k, i).contains(row) && #[trigger] test_rows(n, k, j).contains(row)
        implies i == j by {
        lemma_test_rows_contains(n, k, i, row);
        lemma_test_rows_contains(n, k, j, row);
        if i < j {
            lemma_fold_start_monotonic(n, k, i + 1, j);
        } else if j < i {
            lemma_fold_start_monotonic(n, k, j + 1, i);
        }
    }
    assert forall|i: nat, row: usize|
        i < k implies ((row as nat) < n <==> (#[trigger] train_rows(n, k, i).contains(row) || test_rows(n, k, i).contains(row)))
            && !(train_rows(n, k, i).contains(row) && test_rows(n, k, i).contains(row)) by {
        lemma_test_rows_contains(n, k, i, row);
        lemma_train_rows_contains(n, k, i, row);
        lemma_fold_bounds(n, k, k);
        lemma_fold_start_monotonic(n, k, i + 1, k);
    }
}

/// With `2 <= k <= n`, every fold has at least one test row and at least one training row.
proof fn lemma_fold_sizes(n: nat, k: nat, i: nat)
    requires
        2 <= k <= n,
        i < k,
    ensures
        fold_end(n, k, i) - fold_start(n, k, i) >= 1,
        n - (fold_end(n, k, i) - fold_start(n, k, i)) >= 1,
{
    lemma_fold_bounds(n, k, i);
    let q = n / k;
    let r = n % k;
    lemma_fundamental_div_mod(n as int, k as int);
    lemma_mod_bound(n as int, k as int);
    assert(q >= 1) by {
        lemma_div_is_ordered(k as int, n as int, k as int);
        lemma_div_by_self(k as int);
    }
    assert(k * q >= 2 * q) by (nonlinear_arith) requires k >= 2;
}

/// The `k`-fold splitter over `n_samples` rows.
pub struct CrossValidation {
    pub n_samples: usize,
    pub n_folds: usize,
}

impl CrossValidation {
    /// At least two folds, and no more folds than rows.
    pub open spec fn wf(&self) -> bool {
        2 <= self.n_folds <= self.n_samples
    }

    pub fn new(n_samples: usize, n_folds: usize) -> (r: CrossValidation)
        requires
            2 <= n_folds <= n_samples,
        ensures
            r.wf(),
            r.n_samples == n_samples,
            r.n_folds == n_folds,
    {
        CrossValidation { n_samples, n_folds }
    }

    /// First row of block `i`.
    fn block_start(&self, i: usize) -> (r: usize)
        requires
            self.wf(),
            i <= self.n_folds,
        ensures
            r as nat == fold_start(self.n_samples as nat, self.n_folds as nat, i as nat),
    {
        let n = self.n_samples;
        let k = self.n_folds;
        let q = n / k;
        let rem = n % k;
        proof {
            lemma_fold_bounds(n as nat, k as nat, i as nat);
            lemma_fold_start_monotonic(n as nat, k as nat, i as nat, k as nat);
            assert(i * q <= fold_start(n as nat, k as nat, i as nat));
        }
        let extra = if i <= rem { i } else { rem };
        i * q + extra
    }

    /// The (training rows, test rows) of fold `i`, both in increasing order.
    pub fn fold(&self, i: usize) -> (r: (Vec<usize>, Vec<usize>))
        requires
            self.wf(),
            i < self.n_folds,
        ensures
            r.0@ == train_rows(self.n_samples as nat, self.n_folds as nat, i as nat),
            r.1@ == test_rows(self.n_samples as nat, self.n_folds as nat, i as nat),
            r.0.len() > 0,
            r.1.len() > 0,
    {
        let n = self.n_samples;
        let s = self.block_start(i);
        let e = self.block_start(i + 1);
        proof {
            lemma_fold_bounds(n as nat, self.n_folds as nat, i as nat);
            lemma_fold_start_monotonic(n as nat, self.n_folds as nat, (i + 1) as nat, self.n_folds as nat);
        }
        proof {
            lemma_fold_sizes(n as nat, self.n_folds as nat, i as nat);
        }
        let ghost train_spec = train_rows(n as nat, self.n_folds as nat, i as nat);
        let ghost test_spec = test_rows(n as nat, self.n_folds as nat, i as nat);
        let mut test: Vec<usize> = Vec::new();
        let mut row: usize = s;
        while row < e
            invariant
                s <= row <= e,
                e <= n,
                test@ == test_spec.take(row - s),
                test_spec.len() == e - s,
                forall|j: int| 0 <= j < test_spec.len() ==> test_spec[j] == s + j,
            decreases e - row,
        {
            test.push(row);
            row = row + 1;
            assert(test@ =~= test_spec.take(row - s));
        }
        let mut train: Vec<usize> = Vec::new();
        let mut row: usize = 0;
        while row < s
            invariant
                row <= s <= e <= n,
                train@ == train_spec.take(row as int),
                train_spec.len() == n - (e - s),
                forall|j: int| 0 <= j < train_spec.len() ==> train_spec[j] == if j < s { j } else { j + (e - s) },
            decreases s - row,
        {
            train.push(row);
            row = row + 1;
            assert(train@ =~= train_spec.take(row as int));
        }
        let mut row: usize = e;
        while row < n
            invariant
                s <= e <= row <= n,
                train@ == train_spec.take(row - (e - s)),
                train_spec.len() == n - (e - s),
                forall|j: int| 0 <= j < train_spec.len() ==> train_spec[j] == if j < s { j } else { j + (e - s) },
            decreases n - row,
        {
            train.push(row);
            row = row + 1;
            assert(train@ =~= train_spec.take(row - (e - s)));
        }
        assert(test@ =~= test_spec);
        assert(train@ =~= train_spec);
        (train, test)
    }
}

} // verus!
