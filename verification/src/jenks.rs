//! Natural breaks (Jenks optimization): the dynamic-programming core that
//! picks the class boundaries minimizing the total within-class sum of
//! squared deviations over a sorted sample.
use vstd::prelude::*;

use crate::numeric::Numeric;
use crate::sort::sorted_le;

verus! {

/// A square matrix faked with a flat vector, addressed row-major; every
/// access is bounds-checked by contract instead of unchecked indexing.
pub struct Matrix<T> {
    values: Vec<T>,
    dim: usize,
}

impl<T: Copy> Matrix<T> {
    /// The flat vector holds exactly one cell per coordinate pair.
    pub closed spec fn wf(self) -> bool {
        &&& self.values@.len() == self.dim * self.dim
        &&& self.dim * self.dim <= usize::MAX
    }

    /// The number of rows (and of columns).
    pub closed spec fn spec_dim(self) -> nat {
        self.dim as nat
    }

    /// The cell in row `r`, column `c`.
    pub closed spec fn spec_at(self, r: int, c: int) -> T {
        self.values@[r * self.dim + c]
    }

    pub fn new(init_value: T, dim: usize) -> (m: Matrix<T>)
        requires
            dim * dim <= usize::MAX,
        ensures
            m.wf(),
            m.spec_dim() == dim,
            forall|r: int, c: int|
                0 <= r < dim && 0 <= c < dim ==> #[trigger] m.spec_at(r, c) == init_value,
    {
        proof {
            assert(dim * dim >= 0) by (nonlinear_arith);
        }
        let total = dim * dim;
        let mut values: Vec<T> = Vec::new();
        let mut i: usize = 0;
        while i < total
            invariant
                i <= total,
                values@.len() == i,
                forall|q: int| 0 <= q < i ==> values@[q] == init_value,
            decreases total - i,
        {
            values.push(init_value);
            i = i + 1;
        }
        let m = Matrix { values, dim };
        proof {
            assert forall|r: int, c: int|
                0 <= r < dim && 0 <= c < dim implies #[trigger] m.spec_at(r, c)
                == init_value by {
                assert(0 <= r * dim + c < dim * dim) by (nonlinear_arith)
                    requires
                        0 <= r < dim,
                        0 <= c < dim,
                ;
            }
        }
        m
    }

    pub fn get(&self, ix: (usize, usize)) -> (v: T)
        requires
            self.wf(),
            ix.0 < self.spec_dim(),
            ix.1 < self.spec_dim(),
        ensures
            v == self.spec_at(ix.0 as int, ix.1 as int),
    {
        proof {
            assert(0 <= ix.0 * self.dim + ix.1 < self.dim * self.dim) by (nonlinear_arith)
                requires
                    0 <= (ix.0 as int) < self.dim,
                    0 <= (ix.1 as int) < self.dim,
            ;
        }
        self.values[ix.0 * self.dim + ix.1]
    }

    pub fn set(&mut self, ix: (usize, usize), value: T)
        requires
            old(self).wf(),
            ix.0 < old(self).spec_dim(),
            ix.1 < old(self).spec_dim(),
        ensures
            final (self).wf(),
            final (self).spec_dim() == old(self).spec_dim(),
            final (self).spec_at(ix.0 as int, ix.1 as int) == value,
            forall|r: int, c: int|
                0 <= r < old(self).spec_dim() && 0 <= c < old(self).spec_dim() && !(r == ix.0 && c
                    == ix.1) ==> #[trigger] final (self).spec_at(r, c) == old(self).spec_at(r, c),
    {
        proof {
            assert(0 <= ix.0 * self.dim + ix.1 < self.dim * self.dim) by (nonlinear_arith)
                requires
                    0 <= (ix.0 as int) < self.dim,
                    0 <= (ix.1 as int) < self.dim,
            ;
        }
        let idx = ix.0 * self.dim + ix.1;
        self.values[idx] = value;
        proof {
            let dim = self.dim as int;
            assert forall|r: int, c: int|
                0 <= r < dim && 0 <= c < dim && !(r == ix.0 && c == ix.1) implies #[trigger] self
                .spec_at(r, c) == old(self).spec_at(r, c) by {
                assert(0 <= r * dim + c < dim * dim) by (nonlinear_arith)
                    requires
                        0 <= r < dim,
                        0 <= c < dim,
                ;
                assert(r * dim + c != ix.0 * dim + ix.1) by (nonlinear_arith)
                    requires
                        0 <= r < dim,
                        0 <= c < dim,
                        0 <= (ix.0 as int) < dim,
                        0 <= (ix.1 as int) < dim,
                        !(r == ix.0 && c == ix.1),
                ;
            }
        }
    }
}

/// The sum of the sample values with 1-based positions `i3 ..= l`,
/// accumulated downwards from position `l` as the scan does.
pub open spec fn tail_s1<T: Numeric>(s: Seq<T>, i3: int, l: int) -> T
    decreases l - i3 + 1,
{
    if i3 > l || i3 < 1 {
        T::sfrom(0)
    } else {
        tail_s1(s, i3 + 1, l).sadd(s[i3 - 1])
    }
}

/// The sum of the squares of the sample values with 1-based positions
/// `i3 ..= l`, accumulated downwards from position `l`.
pub open spec fn tail_s2<T: Numeric>(s: Seq<T>, i3: int, l: int) -> T
    decreases l - i3 + 1,
{
    if i3 > l || i3 < 1 {
        T::sfrom(0)
    } else {
        tail_s2(s, i3 + 1, l).sadd(s[i3 - 1].smul(s[i3 - 1]))
    }
}

/// The element count of the positions `i3 ..= l`, accumulated one by one.
pub open spec fn tail_w<T: Numeric>(s: Seq<T>, i3: int, l: int) -> T
    decreases l - i3 + 1,
{
    if i3 > l || i3 < 1 {
        T::sfrom(0)
    } else {
        tail_w::<T>(s, i3 + 1, l).sadd(T::sfrom(1))
    }
}

/// The within-class cost of the tail `i3 ..= l`: the sum of squared
/// deviations from the tail's own mean, in the closed form
/// `S2 - S1*S1/w`.
pub open spec fn tail_cost<T: Numeric>(s: Seq<T>, i3: int, l: int) -> T {
    tail_s2(s, i3, l).ssub(tail_s1(s, i3, l).smul(tail_s1(s, i3, l)).sdiv(tail_w::<T>(s, i3, l)))
}

/// The cost table cell for the first `l` sample values in `j` classes,
/// after the scan of row `l` has weighed the tails starting at positions
/// `l`, `l - 1`, ..., `l - m + 1`: the running minimum over the
/// candidates whose leading part is achievable, `None` while no such
/// candidate has been seen.  Column 1 holds the plain cost of the whole
/// prefix, filled for every row from 2 on.
pub open spec fn dp_cost<T: Numeric>(s: Seq<T>, l: int, j: int, m: int) -> Option<T>
    decreases l, m,
{
    if j <= 1 {
        if l >= 2 {
            Some(tail_cost(s, 1, l))
        } else {
            None
        }
    } else if m <= 0 || l <= 0 {
        None
    } else {
        let i3 = l - m + 1;
        let rest = dp_cost(s, l, j, m - 1);
        if i3 >= 2 {
            match dp_cost(s, i3 - 1, j - 1, i3 - 1) {
                Some(below) => {
                    let cand = tail_cost(s, i3, l).sadd(below);
                    match rest {
                        None => Some(cand),
                        Some(cur) => if cand.sle(cur) {
                            Some(cand)
                        } else {
                            Some(cur)
                        },
                    }
                },
                None => rest,
            }
        } else {
            rest
        }
    }
}

/// The matching backtrack cell: the starting position of the last class
/// in the best split seen so far, `1` while none has been recorded.
/// Later candidates replace earlier ones of equal cost, as the scan's
/// `>=` comparison does.
pub open spec fn dp_start<T: Numeric>(s: Seq<T>, l: int, j: int, m: int) -> int
    decreases l, m,
{
    if j <= 1 || m <= 0 || l <= 0 {
        1
    } else {
        let i3 = l - m + 1;
        let rest = dp_start::<T>(s, l, j, m - 1);
        if i3 >= 2 {
            match dp_cost::<T>(s, i3 - 1, j - 1, i3 - 1) {
                Some(below) => {
                    let cand = tail_cost::<T>(s, i3, l).sadd(below);
                    match dp_cost::<T>(s, l, j, m - 1) {
                        None => i3,
                        Some(cur) => if cand.sle(cur) {
                            i3
                        } else {
                            rest
                        },
                    }
                },
                None => rest,
            }
        } else {
            rest
        }
    }
}

/// The settled cost cell for row `l`, after its whole scan.
pub open spec fn dp_cost_final<T: Numeric>(s: Seq<T>, l: int, j: int) -> Option<T> {
    dp_cost(s, l, j, l)
}

/// The settled backtrack cell for row `l`, after its whole scan.
pub open spec fn dp_start_final<T: Numeric>(s: Seq<T>, l: int, j: int) -> int {
    dp_start::<T>(s, l, j, l)
}

/// The row the backtrack reads when it treats column `j`: the full
/// sample length for the last class, and below that the recorded start
/// of the class above, less one.
pub open spec fn spec_jenks_row<T: Numeric>(s: Seq<T>, k: nat, j: int) -> int
    decreases k - j,
{
    if j >= k {
        s.len() as int
    } else {
        dp_start_final::<T>(s, spec_jenks_row::<T>(s, k, j + 1), j + 1) - 1
    }
}

/// A row too short for two classes never settles a cost.
proof fn lemma_dp_cost_small_row<T: Numeric>(s: Seq<T>, l: int, j: int, m: int)
    requires
        j >= 2,
        l <= 1,
    ensures
        dp_cost::<T>(s, l, j, m) is None,
    decreases m,
{
    if m > 0 && l > 0 {
        lemma_dp_cost_small_row::<T>(s, l, j, m - 1);
    }
}

/// Once a cost is settled in a cell, further scan steps keep it settled.
proof fn lemma_dp_cost_some_mono<T: Numeric>(s: Seq<T>, l: int, j: int, m1: int, m2: int)
    requires
        j >= 2,
        m1 <= m2,
        dp_cost::<T>(s, l, j, m1) is Some,
    ensures
        dp_cost::<T>(s, l, j, m2) is Some,
    decreases m2 - m1,
{
    if m1 < m2 {
        lemma_dp_cost_some_mono::<T>(s, l, j, m1, m2 - 1);
    }
}

/// Every cell with at least one more row than classes settles a cost:
/// the split whose last class starts right after the first `j - 1`
/// values is always weighed.
proof fn lemma_dp_cost_some<T: Numeric>(s: Seq<T>, l: int, j: int)
    requires
        2 <= j,
        j + 1 <= l,
    ensures
        dp_cost_final::<T>(s, l, j) is Some,
    decreases j,
{
    let i3 = j + 1;
    let m0 = l - i3 + 1;
    if j == 2 {
        assert(dp_cost::<T>(s, i3 - 1, j - 1, i3 - 1) is Some);
    } else {
        lemma_dp_cost_some::<T>(s, i3 - 1, j - 1);
    }
    assert(dp_cost::<T>(s, l, j, m0) is Some);
    lemma_dp_cost_some_mono::<T>(s, l, j, m0, l);
}

/// Where a cost is settled, the recorded class start lies between 2 and
/// the row, and the cell for the part before the class is settled too.
proof fn lemma_dp_start_range<T: Numeric>(s: Seq<T>, l: int, j: int, m: int)
    requires
        j >= 2,
        m <= l,
        dp_cost::<T>(s, l, j, m) is Some,
    ensures
        2 <= dp_start::<T>(s, l, j, m) <= l,
        dp_cost_final::<T>(s, dp_start::<T>(s, l, j, m) - 1, j - 1) is Some,
    decreases m,
{
    let i3 = l - m + 1;
    if m > 0 && l > 0 {
        if i3 >= 2 && dp_cost::<T>(s, i3 - 1, j - 1, i3 - 1) is Some {
            if dp_cost::<T>(s, l, j, m - 1) is Some && !(tail_cost::<T>(s, i3, l).sadd(
                dp_cost::<T>(s, i3 - 1, j - 1, i3 - 1)->Some_0,
            )).sle(dp_cost::<T>(s, l, j, m - 1)->Some_0) {
                lemma_dp_start_range::<T>(s, l, j, m - 1);
            } else {
                if j - 1 == 1 {
                    assert(dp_cost_final::<T>(s, i3 - 1, j - 1) == dp_cost::<T>(
                        s,
                        i3 - 1,
                        j - 1,
                        i3 - 1,
                    ));
                }
            }
        } else {
            lemma_dp_start_range::<T>(s, l, j, m - 1);
        }
    }
}

/// Once the scan has weighed a candidate split, the cell stays at or
/// below that candidate's cost.
proof fn lemma_dp_cost_le_candidate<T: Numeric>(s: Seq<T>, l: int, j: int, m: int, i3c: int)
    requires
        j >= 2,
        1 <= m <= l,
        2 <= i3c <= l,
        l - m + 1 <= i3c,
        dp_cost_final::<T>(s, i3c - 1, j - 1) is Some,
    ensures
        dp_cost::<T>(s, l, j, m) is Some,
        dp_cost::<T>(s, l, j, m)->Some_0.sle(
            tail_cost(s, i3c, l).sadd(dp_cost_final::<T>(s, i3c - 1, j - 1)->Some_0),
        ),
    decreases m,
{
    let i3 = l - m + 1;
    let cand_c = tail_cost(s, i3c, l).sadd(dp_cost_final::<T>(s, i3c - 1, j - 1)->Some_0);
    if i3 == i3c {
        match dp_cost::<T>(s, l, j, m - 1) {
            None => {
                T::law_le_refl(cand_c);
            },
            Some(cur) => {
                if cand_c.sle(cur) {
                    T::law_le_refl(cand_c);
                } else {
                    T::law_le_total(cand_c, cur);
                }
            },
        }
    } else {
        lemma_dp_cost_le_candidate::<T>(s, l, j, m - 1, i3c);
        let old_cost = dp_cost::<T>(s, l, j, m - 1)->Some_0;
        if i3 >= 2 && dp_cost::<T>(s, i3 - 1, j - 1, i3 - 1) is Some {
            let cand = tail_cost(s, i3, l).sadd(dp_cost::<T>(s, i3 - 1, j - 1, i3 - 1)->Some_0);
            if cand.sle(old_cost) {
                T::law_le_trans(cand, old_cost, cand_c);
            }
        }
    }
}

/// The settled cell is the minimum over the tail choices: it does not
/// exceed the cost of any split whose leading part is achievable.
pub proof fn lemma_dp_cost_minimal<T: Numeric>(s: Seq<T>, l: int, j: int, i3c: int)
    requires
        j >= 2,
        2 <= i3c <= l,
        dp_cost_final::<T>(s, i3c - 1, j - 1) is Some,
    ensures
        dp_cost_final::<T>(s, l, j) is Some,
        dp_cost_final::<T>(s, l, j)->Some_0.sle(
            tail_cost(s, i3c, l).sadd(dp_cost_final::<T>(s, i3c - 1, j - 1)->Some_0),
        ),
{
    lemma_dp_cost_le_candidate::<T>(s, l, j, l, i3c);
}

/// The settled cell's cost is attained: it is exactly the cost of the
/// split starting at the recorded class start.
pub proof fn lemma_dp_cost_attained<T: Numeric>(s: Seq<T>, l: int, j: int)
    requires
        j >= 2,
        dp_cost_final::<T>(s, l, j) is Some,
    ensures
        2 <= dp_start_final::<T>(s, l, j) <= l,
        dp_cost_final::<T>(s, dp_start_final::<T>(s, l, j) - 1, j - 1) is Some,
        dp_cost_final::<T>(s, l, j)->Some_0 == tail_cost(s, dp_start_final::<T>(s, l, j), l).sadd(
            dp_cost_final::<T>(s, dp_start_final::<T>(s, l, j) - 1, j - 1)->Some_0,
        ),
{
    lemma_dp_start_value::<T>(s, l, j, l);
}

/// The recorded start always names the split whose cost the cell holds.
proof fn lemma_dp_start_value<T: Numeric>(s: Seq<T>, l: int, j: int, m: int)
    requires
        j >= 2,
        m <= l,
        dp_cost::<T>(s, l, j, m) is Some,
    ensures
        2 <= dp_start::<T>(s, l, j, m) <= l,
        dp_cost_final::<T>(s, dp_start::<T>(s, l, j, m) - 1, j - 1) is Some,
        dp_cost::<T>(s, l, j, m)->Some_0 == tail_cost(s, dp_start::<T>(s, l, j, m), l).sadd(
            dp_cost_final::<T>(s, dp_start::<T>(s, l, j, m) - 1, j - 1)->Some_0,
        ),
    decreases m,
{
    let i3 = l - m + 1;
    if m > 0 && l > 0 {
        if i3 >= 2 && dp_cost::<T>(s, i3 - 1, j - 1, i3 - 1) is Some {
            if dp_cost::<T>(s, l, j, m - 1) is Some && !(tail_cost::<T>(s, i3, l).sadd(
                dp_cost::<T>(s, i3 - 1, j - 1, i3 - 1)->Some_0,
            )).sle(dp_cost::<T>(s, l, j, m - 1)->Some_0) {
                lemma_dp_start_value::<T>(s, l, j, m - 1);
            }
        } else {
            lemma_dp_start_value::<T>(s, l, j, m - 1);
        }
    }
}

/// Settled cells only stand in rows with at least two values.
proof fn lemma_dp_cost_some_row_ge2<T: Numeric>(s: Seq<T>, l: int, j: int, m: int)
    requires
        j >= 2,
        dp_cost::<T>(s, l, j, m) is Some,
    ensures
        l >= 2,
{
    if l <= 1 {
        lemma_dp_cost_small_row::<T>(s, l, j, m);
    }
}

/// Walking the backtrack rows from column `j` of the full table: every
/// visited cell is settled and the rows strictly descend.
proof fn lemma_jenks_rows<T: Numeric>(s: Seq<T>, k: nat, j: int)
    requires
        2 <= j <= k,
        k + 1 <= s.len(),
    ensures
        dp_cost_final::<T>(s, spec_jenks_row::<T>(s, k, j), j) is Some,
        2 <= spec_jenks_row::<T>(s, k, j) <= s.len() - (k - j),
        1 <= spec_jenks_row::<T>(s, k, j - 1) < spec_jenks_row::<T>(s, k, j),
    decreases k - j,
{
    let n = s.len() as int;
    if j == k {
        lemma_dp_cost_some::<T>(s, n, j);
    } else {
        lemma_jenks_rows::<T>(s, k, j + 1);
        let upper = spec_jenks_row::<T>(s, k, j + 1);
        lemma_dp_start_range::<T>(s, upper, j + 1, upper);
        assert(spec_jenks_row::<T>(s, k, j) == dp_start_final::<T>(s, upper, j + 1) - 1);
        lemma_dp_cost_some_row_ge2::<T>(
            s,
            spec_jenks_row::<T>(s, k, j),
            j,
            spec_jenks_row::<T>(s, k, j),
        );
    }
    let row = spec_jenks_row::<T>(s, k, j);
    lemma_dp_start_range::<T>(s, row, j, row);
    if j - 1 >= 2 {
        lemma_dp_cost_some_row_ge2::<T>(
            s,
            spec_jenks_row::<T>(s, k, j - 1),
            j - 1,
            spec_jenks_row::<T>(s, k, j - 1),
        );
    }
}

/// All `k + 1` natural-breaks boundaries in order: the sample minimum,
/// the sample value just below each recorded class start, and the sample
/// maximum.  With as many classes as values every value is its own
/// class, so the inner boundaries are the values themselves.
pub open spec fn spec_jenks<T: Numeric>(s: Seq<T>, k: nat) -> Seq<T> {
    if k == s.len() {
        Seq::new(
            k + 1,
            |i: int|
                if i == 0 {
                    s.first()
                } else if i == k {
                    s.last()
                } else {
                    s[i - 1]
                },
        )
    } else {
        Seq::new(
            k + 1,
            |i: int|
                if i == 0 {
                    s.first()
                } else if i == k {
                    s.last()
                } else {
                    s[spec_jenks_row::<T>(s, k, i) - 1]
                },
        )
    }
}

/// The backtrack rows do not descend when the column climbs.
proof fn lemma_jenks_row_mono<T: Numeric>(s: Seq<T>, k: nat, j1: int, j2: int)
    requires
        2 <= k,
        k + 1 <= s.len(),
        1 <= j1 <= j2 <= k,
    ensures
        spec_jenks_row::<T>(s, k, j1) <= spec_jenks_row::<T>(s, k, j2),
        1 <= spec_jenks_row::<T>(s, k, j1),
        spec_jenks_row::<T>(s, k, j2) <= s.len() - (k - j2),
    decreases j2 - j1,
{
    if j2 == k {
    } else {
        lemma_jenks_rows::<T>(s, k, j2 + 1);
    }
    if j1 < j2 {
        lemma_jenks_rows::<T>(s, k, j1 + 1);
        lemma_jenks_row_mono::<T>(s, k, j1 + 1, j2);
    } else {
        if j1 >= 2 {
            lemma_jenks_rows::<T>(s, k, j1);
        } else {
            lemma_jenks_rows::<T>(s, k, 2);
        }
    }
}

/// The natural-breaks boundaries of a sorted sample are non-decreasing,
/// start at the sample minimum, end at the sample maximum, and all of
/// them are sample elements.
pub proof fn lemma_jenks_sorted<T: Numeric>(s: Seq<T>, k: nat)
    requires
        sorted_le(s),
        s.len() >= 1,
        1 <= k <= s.len(),
    ensures
        spec_jenks(s, k).len() == k + 1,
        spec_jenks(s, k).first() == s.first(),
        spec_jenks(s, k).last() == s.last(),
        sorted_le(spec_jenks(s, k)),
{
    let q = spec_jenks(s, k);
    let n = s.len() as int;
    assert forall|i: int, j: int| 0 <= i <= j < q.len() implies q[i].sle(q[j]) by {
        let xi: int = if k == s.len() {
            if i == 0 {
                0
            } else if i == k {
                n - 1
            } else {
                i - 1
            }
        } else {
            if i == 0 {
                0
            } else if i == k {
                n - 1
            } else {
                spec_jenks_row::<T>(s, k, i) - 1
            }
        };
        let xj: int = if k == s.len() {
            if j == 0 {
                0
            } else if j == k {
                n - 1
            } else {
                j - 1
            }
        } else {
            if j == 0 {
                0
            } else if j == k {
                n - 1
            } else {
                spec_jenks_row::<T>(s, k, j) - 1
            }
        };
        if k != s.len() {
            if 1 <= i < k {
                lemma_jenks_row_mono::<T>(s, k, i, i);
            }
            if 1 <= j < k {
                lemma_jenks_row_mono::<T>(s, k, j, j);
            }
            if 1 <= i <= j < k {
                lemma_jenks_row_mono::<T>(s, k, i, j);
            }
        }
        assert(0 <= xi <= xj < s.len());
        assert(q[i] == s[xi]);
        assert(q[j] == s[xj]);
        assert(s[xi].sle(s[xj]));
    }
}

/// Rows `2 ..= hi - 1` (1-based) of the two tables hold their settled
/// values: the cost and class-start cells for every class count, and the
/// whole-prefix cost in the first column.
pub open spec fn rows_settled<T: Numeric>(
    s: Seq<T>,
    k: int,
    v1: Matrix<usize>,
    v2: Matrix<Option<T>>,
    hi: int,
) -> bool {
    &&& forall|r: int, c: int|
        1 <= r < hi - 1 && 1 <= c <= k - 1 ==> #[trigger] v2.spec_at(r, c) == dp_cost_final::<T>(
            s,
            r + 1,
            c + 1,
        )
    &&& forall|r: int, c: int|
        1 <= r < hi - 1 && 1 <= c <= k - 1 ==> (#[trigger] v1.spec_at(r, c)) as int
            == dp_start_final::<T>(s, r + 1, c + 1)
    &&& forall|r: int| 1 <= r < hi - 1 ==> #[trigger] v2.spec_at(r, 0) == Some(tail_cost(s, 1, r + 1))
    &&& forall|r: int| 1 <= r < hi - 1 ==> #[trigger] v1.spec_at(r, 0) == 1usize
}

/// The first row and the rows from `lo` (1-based) on still hold the
/// initial table values.
pub open spec fn rows_untouched<T: Numeric>(
    k: int,
    v1: Matrix<usize>,
    v2: Matrix<Option<T>>,
    lo: int,
    dim: int,
) -> bool {
    &&& forall|r: int, c: int|
        (r == 0 || lo - 1 <= r < dim) && 0 <= c <= k - 1 ==> #[trigger] v2.spec_at(r, c)
            == None::<T>
    &&& forall|r: int, c: int|
        (r == 0 || lo - 1 <= r < dim) && 0 <= c <= k - 1 ==> #[trigger] v1.spec_at(r, c) == 1usize
}

/// Compute the "Natural Breaks" on a list of sorted values, based on Jenks optimization.
///
/// When as many classes as values are requested, every value forms its
/// own class and the boundaries are the values themselves.
#[verifier::loop_isolation(false)]
#[verifier::rlimit(60)]
pub fn get_jenks_breaks<T: Numeric>(sorted_values: &[T], nb_class: u32) -> (breaks: Vec<T>)
    requires
        sorted_values@.len() >= 1,
        1 <= nb_class,
        nb_class as nat <= sorted_values@.len(),
        sorted_values@.len() * sorted_values@.len() <= usize::MAX,
    ensures
        breaks@ == spec_jenks(sorted_values@, nb_class as nat),
{
    let ghost s = sorted_values@;
    let nb_elem: usize = sorted_values.len();
    let k: usize = nb_class as usize;
    proof {
        assert(nb_elem <= nb_elem * nb_elem) by (nonlinear_arith)
            requires
                nb_elem >= 1,
        ;
    }
    if k == nb_elem {
        let mut breaks: Vec<T> = Vec::new();
        breaks.push(sorted_values[0]);
        let mut i: usize = 1;
        while i < k
            invariant
                1 <= i <= k,
                breaks@.len() == i,
                forall|q: int| 0 <= q < i ==> breaks@[q] == spec_jenks(s, k as nat)[q],
            decreases k - i,
        {
            breaks.push(sorted_values[i - 1]);
            i = i + 1;
        }
        breaks.push(sorted_values[nb_elem - 1]);
        proof {
            assert(breaks@ =~= spec_jenks(s, nb_class as nat));
        }
        return breaks;
    }
    let mut v1: Matrix<usize> = Matrix::new(1usize, nb_elem);
    let mut v2: Matrix<Option<T>> = Matrix::new(None, nb_elem);
    let mut l: usize = 2;
    while l <= nb_elem
        invariant
            2 <= l <= nb_elem + 1,
            v1.wf(),
            v2.wf(),
            v1.spec_dim() == nb_elem,
            v2.spec_dim() == nb_elem,
            rows_settled(s, k as int, v1, v2, l as int),
            rows_untouched::<T>(k as int, v1, v2, l as int, nb_elem as int),
        decreases nb_elem + 1 - l,
    {
        let mut s1: T = T::from_count(0);
        let mut s2: T = T::from_count(0);
        let mut w: T = T::from_count(0);
        let mut m: usize = 1;
        while m <= l
            invariant
                1 <= m <= l + 1,
                l <= nb_elem,
                v1.wf(),
                v2.wf(),
                v1.spec_dim() == nb_elem,
                v2.spec_dim() == nb_elem,
                s1 == tail_s1(s, l - m + 2, l as int),
                s2 == tail_s2(s, l - m + 2, l as int),
                w == tail_w::<T>(s, l - m + 2, l as int),
                rows_settled(s, k as int, v1, v2, l as int),
                rows_untouched::<T>(k as int, v1, v2, l as int + 1, nb_elem as int),
                forall|c: int|
                    1 <= c <= k - 1 ==> #[trigger] v2.spec_at(l - 1, c) == dp_cost(
                        s,
                        l as int,
                        c + 1,
                        m - 1,
                    ),
                forall|c: int|
                    1 <= c <= k - 1 ==> (#[trigger] v1.spec_at(l - 1, c)) as int == dp_start::<T>(
                        s,
                        l as int,
                        c + 1,
                        m - 1,
                    ),
                v2.spec_at(l - 1, 0) == if m == 1 {
                    None::<T>
                } else {
                    Some(tail_cost(s, l - m + 2, l as int))
                },
                v1.spec_at(l - 1, 0) == 1usize,
            decreases l + 1 - m,
        {
            let i3: usize = l - m + 1;
            let val = sorted_values[i3 - 1];
            s2 = s2.add(val.mul(val));
            s1 = s1.add(val);
            w = w.add(T::from_count(1));
            proof {
                assert(s1 == tail_s1(s, i3 as int, l as int));
                assert(s2 == tail_s2(s, i3 as int, l as int));
                assert(w == tail_w::<T>(s, i3 as int, l as int));
            }
            let v = s2.sub(s1.mul(s1).div(w));
            proof {
                assert(v == tail_cost(s, i3 as int, l as int));
            }
            let i4: usize = i3 - 1;
            if i4 != 0 {
                let mut j: usize = 2;
                while j <= k
                    invariant
                        2 <= j <= k + 1,
                        v1.wf(),
                        v2.wf(),
                        v1.spec_dim() == nb_elem,
                        v2.spec_dim() == nb_elem,
                        rows_settled(s, k as int, v1, v2, l as int),
                        rows_untouched::<T>(k as int, v1, v2, l as int + 1, nb_elem as int),
                        forall|c: int|
                            1 <= c < j - 1 ==> #[trigger] v2.spec_at(l - 1, c) == dp_cost(
                                s,
                                l as int,
                                c + 1,
                                m as int,
                            ),
                        forall|c: int|
                            1 <= c < j - 1 ==> (#[trigger] v1.spec_at(l - 1, c)) as int
                                == dp_start::<T>(s, l as int, c + 1, m as int),
                        forall|c: int|
                            j - 1 <= c <= k - 1 ==> #[trigger] v2.spec_at(l - 1, c) == dp_cost(
                                s,
                                l as int,
                                c + 1,
                                m - 1,
                            ),
                        forall|c: int|
                            j - 1 <= c <= k - 1 ==> (#[trigger] v1.spec_at(l - 1, c)) as int
                                == dp_start::<T>(s, l as int, c + 1, m - 1),
                        v2.spec_at(l - 1, 0) == if m == 1 {
                            None::<T>
                        } else {
                            Some(tail_cost(s, l - m + 2, l as int))
                        },
                        v1.spec_at(l - 1, 0) == 1usize,
                    decreases k + 1 - j,
                {
                    proof {
                        // the cell below is settled (or untouched row one)
                        if i4 == 1 {
                            assert(v2.spec_at(0, j - 2) == None::<T>);
                            if j == 2 {
                                assert(dp_cost::<T>(s, 1, 1, 1) is None);
                            } else {
                                lemma_dp_cost_small_row::<T>(s, 1, j - 1, 1);
                            }
                        }
                    }
                    match v2.get((i4 - 1, j - 2)) {
                        Some(below) => {
                            let cand = v.add(below);
                            let take = match v2.get((l - 1, j - 1)) {
                                None => true,
                                Some(cur) => cand.le(cur),
                            };
                            if take {
                                v2.set((l - 1, j - 1), Some(cand));
                                v1.set((l - 1, j - 1), i3);
                            }
                        },
                        None => {},
                    }
                    proof {
                        assert(v2.spec_at(l - 1, j - 1) == dp_cost(s, l as int, j as int, m as int));
                        assert((v1.spec_at(l - 1, j - 1)) as int == dp_start::<T>(
                            s,
                            l as int,
                            j as int,
                            m as int,
                        ));
                    }
                    j = j + 1;
                }
            } else {
                proof {
                    assert forall|c: int| 1 <= c <= k - 1 implies #[trigger] v2.spec_at(l - 1, c)
                        == dp_cost(s, l as int, c + 1, m as int) && (v1.spec_at(l - 1, c)) as int
                        == dp_start::<T>(s, l as int, c + 1, m as int) by {
                        assert(dp_cost(s, l as int, c + 1, m as int) == dp_cost(
                            s,
                            l as int,
                            c + 1,
                            m - 1,
                        ));
                        assert(dp_start::<T>(s, l as int, c + 1, m as int) == dp_start::<T>(
                            s,
                            l as int,
                            c + 1,
                            m - 1,
                        ));
                    }
                }
            }
            v1.set((l - 1, 0), 1);
            v2.set((l - 1, 0), Some(v));
            proof {
                assert(nb_elem + 1 <= usize::MAX) by (nonlinear_arith)
                    requires
                        nb_elem >= 2,
                        nb_elem * nb_elem <= usize::MAX,
                ;
            }
            m = m + 1;
        }
        proof {
            assert forall|c: int| 1 <= c <= k - 1 implies #[trigger] v2.spec_at(l - 1, c)
                == dp_cost_final::<T>(s, l as int, c + 1) && (v1.spec_at(l - 1, c)) as int
                == dp_start_final::<T>(s, l as int, c + 1) by {
                assert(v2.spec_at(l - 1, c) == dp_cost(s, l as int, c + 1, l as int));
                assert((v1.spec_at(l - 1, c)) as int == dp_start::<T>(s, l as int, c + 1, l as int));
            }
            assert(v2.spec_at(l - 1, 0) == Some(tail_cost(s, 1, l as int)));
        }
        l = l + 1;
    }
    // backtrack the recorded class starts, from the last class down
    let mut cuts: Vec<usize> = Vec::new();
    let mut n_row: usize = nb_elem;
    let mut j: usize = k;
    proof {
        if k >= 2 {
            lemma_jenks_rows::<T>(s, k as nat, k as int);
        }
    }
    while j > 1
        invariant
            1 <= j <= k,
            v1.wf(),
            v2.wf(),
            v1.spec_dim() == nb_elem,
            v2.spec_dim() == nb_elem,
            rows_settled(s, k as int, v1, v2, nb_elem + 1),
            n_row as int == spec_jenks_row::<T>(s, k as nat, j as int),
            cuts@.len() == k - j,
            forall|q: int|
                0 <= q < cuts@.len() ==> (#[trigger] cuts@[q]) as int == spec_jenks_row::<T>(
                    s,
                    k as nat,
                    k - 1 - q,
                ),
            j >= 2 ==> 2 <= n_row <= nb_elem,
        decreases j,
    {
        proof {
            lemma_jenks_rows::<T>(s, k as nat, j as int);
            lemma_dp_start_range::<T>(s, n_row as int, j as int, n_row as int);
        }
        let start = v1.get((n_row - 1, j - 1));
        n_row = start - 1;
        cuts.push(n_row);
        j = j - 1;
        proof {
            if j >= 2 {
                lemma_jenks_rows::<T>(s, k as nat, j as int);
            }
            assert forall|q: int|
                0 <= q < cuts@.len() implies (#[trigger] cuts@[q]) as int == spec_jenks_row::<T>(
                s,
                k as nat,
                k - 1 - q,
            ) by {
                if q < cuts@.len() - 1 {
                    assert(cuts@[q] == cuts@.drop_last()[q]);
                }
            }
        }
    }
    // emit the boundaries
    let mut breaks: Vec<T> = Vec::new();
    breaks.push(sorted_values[0]);
    let mut i: usize = 1;
    while i < k
        invariant
            1 <= i <= k,
            cuts@.len() == k - 1,
            forall|q: int|
                0 <= q < cuts@.len() ==> (#[trigger] cuts@[q]) as int == spec_jenks_row::<T>(
                    s,
                    k as nat,
                    k - 1 - q,
                ),
            breaks@.len() == i,
            forall|q: int| 0 <= q < i ==> breaks@[q] == spec_jenks(s, k as nat)[q],
        decreases k - i,
    {
        proof {
            lemma_jenks_rows::<T>(s, k as nat, i + 1);
        }
        let cut = cuts[k - 1 - i];
        breaks.push(sorted_values[cut - 1]);
        i = i + 1;
    }
    breaks.push(sorted_values[nb_elem - 1]);
    proof {
        assert(breaks@ =~= spec_jenks(s, nb_class as nat));
    }
    breaks
}

} // verus!
