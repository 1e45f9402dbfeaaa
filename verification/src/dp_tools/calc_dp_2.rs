//! Dynamic programming over change points with a minimum spacing of two
//! time steps between consecutive change points (the very first segment
//! alone may have length one).

use vstd::prelude::*;

use rayon::iter::{IntoParallelIterator, ParallelIterator};

use super::CalcDpError;

verus! {

/// Time index: 1-based time step; 0 is the virtual sentinel before the data.
pub type Tau = usize;

/// Number of change points used so far.
pub type NumChg = usize;

/// Whether the pair of consecutive change points `(t_k_1, t_k)` satisfies
/// the ordering invariant: `t_k > t_k_1 + 1`, except that the very first
/// segment `(0, 1)` is permitted; `t_k == 0` is always invalid.
pub open spec fn order_ok(t_k_1: int, t_k: int) -> bool {
    t_k != 0 && (t_k_1 < t_k - 1 || (t_k == 1 && t_k_1 == 0))
}

/// Checks the ordering invariant between two consecutive change points.
pub fn order_change_point(t_k_1: &Tau, t_k: &Tau) -> (r: Result<(), CalcDpError>)
    ensures
        r is Ok <==> order_ok(*t_k_1 as int, *t_k as int),
{
    if *t_k == 0 {
        Err(CalcDpError { message: "Index tau_k must be greater than 0.".to_owned() })
    } else if (*t_k_1 >= (*t_k - 1)) && !(*t_k == 1 && *t_k_1 == 0) {
        Err(CalcDpError {
            message: "Index tau_k must be greater than tau_{k-1} + 1.".to_owned(),
        })
    } else {
        Ok(())
    }
}

/// Capability a score type must supply: an associative binary "sum"
/// used to accumulate per-segment scores, its identity element, an
/// order used to select a maximum, and value-preserving duplication.
///
/// Associativity and the identity law are stated as proof obligations,
/// since cached multi-segment totals must not depend on grouping order.
pub trait ValOps: Sized {
    /// Mathematical meaning of `add_val`.
    spec fn add_spec(self, other: Self) -> Self;

    /// Mathematical meaning of `le_val`: whether `self` is at most `other`.
    spec fn le_spec(self, other: Self) -> bool;

    /// Mathematical meaning of `zero_val`.
    spec fn zero_spec() -> Self;

    /// The sum operation is associative.
    proof fn lemma_add_assoc(a: Self, b: Self, c: Self)
        ensures
            a.add_spec(b).add_spec(c) == a.add_spec(b.add_spec(c)),
    ;

    /// The identity element is neutral on the left.
    proof fn lemma_zero_add(a: Self)
        ensures
            Self::zero_spec().add_spec(a) == a,
    ;

    /// Combines two scores.
    fn add_val(&self, other: &Self) -> (r: Self)
        ensures
            r == self.add_spec(*other),
    ;

    /// Compares two scores; `true` means `self` is at most `other`.
    fn le_val(&self, other: &Self) -> (r: bool)
        ensures
            r == self.le_spec(*other),
    ;

    /// The identity element of the sum operation.
    fn zero_val() -> (r: Self)
        ensures
            r == Self::zero_spec(),
    ;

    /// Duplicates a score without changing its value.
    fn clone_val(&self) -> (r: Self)
        ensures
            r == *self,
    ;
}

impl ValOps for i64 {
    open spec fn add_spec(self, other: i64) -> i64 {
        vstd::wrapping::i64_specs::wrapping_add(self, other)
    }

    open spec fn le_spec(self, other: i64) -> bool {
        self <= other
    }

    open spec fn zero_spec() -> i64 {
        0i64
    }

    proof fn lemma_add_assoc(a: i64, b: i64, c: i64) {
        lemma_i64_wrapping_add_assoc(a, b, c);
    }

    proof fn lemma_zero_add(a: i64) {
    }

    fn add_val(&self, other: &i64) -> i64 {
        self.wrapping_add(*other)
    }

    fn le_val(&self, other: &i64) -> bool {
        *self <= *other
    }

    fn zero_val() -> i64 {
        0
    }

    fn clone_val(&self) -> i64 {
        *self
    }
}

/// Wrapping addition on `i64` is associative: both groupings reduce the
/// exact integer sum into `i64::MIN ..= i64::MAX` by a multiple of 2^64,
/// and that reduction is unique.
pub proof fn lemma_i64_wrapping_add_assoc(a: i64, b: i64, c: i64)
    ensures
        vstd::wrapping::i64_specs::wrapping_add(
            vstd::wrapping::i64_specs::wrapping_add(a, b),
            c,
        ) == vstd::wrapping::i64_specs::wrapping_add(a, vstd::wrapping::i64_specs::wrapping_add(b, c)),
{
}

/// Capability to score the segment strictly between two change points.
///
/// `spec_value` is the mathematical model of the (pure) scoring function:
/// `None` models a domain failure of the evaluator for that pair.
pub trait CalcTT<Val, Ipt> {
    /// What `calc_value` returns for a pair of change points, on every input.
    spec fn spec_value(data: Ipt, t_k_1: int, t_k: int) -> Option<Val>;

    /// Computes the score of the segment between `t_k_1` and `t_k`.
    fn calc_value(data: &Ipt, t_k_1: Tau, t_k: Tau) -> (r: Result<Val, CalcDpError>)
        ensures
            match r {
                Ok(v) => Self::spec_value(*data, t_k_1 as int, t_k as int) == Some(v),
                Err(_) => Self::spec_value(*data, t_k_1 as int, t_k as int) is None,
            },
    ;
}

/// The sequence-of-sequences abstraction of a jagged table.
pub open spec fn table_view<V>(t: Vec<Vec<V>>) -> Seq<Seq<V>> {
    t@.map_values(|r: Vec<V>| r@)
}

/// What a pairwise-table lookup at `(t_k_1, t_k)` yields, or `None` when
/// the ordering invariant or the table bounds are violated. Row 0 holds
/// every segment from the virtual start, the special first pair `(0, 1)`
/// included, at column `t_k - 1`; every other row holds its pairs at
/// column `t_k - t_k_1 - 2`.
pub open spec fn value_tt_spec<V>(tab: Seq<Seq<V>>, t_k_1: int, t_k: int) -> Option<V> {
    if !(order_ok(t_k_1, t_k) && 0 <= t_k_1) {
        None
    } else if t_k_1 == 0 {
        if tab.len() >= 1 && 0 <= t_k - 1 < tab[0].len() {
            Some(tab[0][t_k - 1])
        } else {
            None
        }
    } else {
        if t_k_1 < tab.len() && 0 <= t_k - t_k_1 - 2 < tab[t_k_1].len() {
            Some(tab[t_k_1][t_k - t_k_1 - 2])
        } else {
            None
        }
    }
}

/// Whether `tab` is the complete pairwise table for `data` up to `t_max`:
/// one row per `t_k_1` in `0 .. t_max - 1` (a single row when `t_max` is
/// 1). Row 0 holds the score of every segment from the virtual start —
/// the special first pair `(0, 1)` included — with `[0][j]` scoring the
/// pair `(0, j + 1)`; every other row `i` holds `[i][j]` scoring the pair
/// `(i, i + 2 + j)`.
pub open spec fn is_value_table<Val, Ipt, C: CalcTT<Val, Ipt>>(
    tab: Seq<Seq<Val>>,
    data: Ipt,
    t_max: int,
) -> bool {
    &&& tab.len() == (if t_max == 1 {
        1int
    } else {
        t_max - 1
    })
    &&& tab[0].len() == t_max
    &&& forall|i: int| 1 <= i < tab.len() ==> #[trigger] tab[i].len() == t_max - i - 1
    &&& forall|j: int|
        0 <= j < tab[0].len() ==> C::spec_value(data, 0, j + 1) == Some(#[trigger] tab[0][j])
    &&& forall|i: int, j: int|
        1 <= i < tab.len() && 0 <= j < tab[i].len() ==> C::spec_value(data, i, i + 2 + j) == Some(
            #[trigger] tab[i][j],
        )
}

/// One row of the pairwise table: for the virtual start (`t_k_1 == 0`)
/// the scores for `t_k` in `1 ..= t_max`, the special first pair
/// included; for any other `t_k_1` the scores for `t_k` in
/// `t_k_1 + 2 ..= t_max`.
fn calc_row<Val, Ipt, C: CalcTT<Val, Ipt>>(data: &Ipt, t_k_1: Tau, t_max: Tau) -> (r: Result<
    Vec<Val>,
    CalcDpError,
>)
    requires
        t_max < usize::MAX,
        t_k_1 == 0 ==> t_max >= 1,
        t_k_1 >= 1 ==> t_k_1 + 2 <= t_max,
    ensures
        match r {
            Ok(row) => {
                &&& t_k_1 == 0 ==> row@.len() == t_max && forall|j: int|
                    0 <= j < row@.len() ==> C::spec_value(*data, 0, j + 1) == Some(
                        #[trigger] row@[j],
                    )
                &&& t_k_1 >= 1 ==> row@.len() == t_max - t_k_1 - 1 && forall|j: int|
                    0 <= j < row@.len() ==> C::spec_value(*data, t_k_1 as int, t_k_1 + 2 + j)
                        == Some(#[trigger] row@[j])
            },
            Err(_) => exists|t_k: int|
                (if t_k_1 == 0 {
                    1int
                } else {
                    t_k_1 + 2
                }) <= t_k <= t_max && C::spec_value(*data, t_k_1 as int, t_k) is None,
        },
{
    let start: usize = if t_k_1 == 0 {
        1
    } else {
        t_k_1 + 2
    };
    let mut row: Vec<Val> = Vec::new();
    let mut t_k: usize = start;
    while t_k <= t_max
        invariant
            start == (if t_k_1 == 0 {
                1int
            } else {
                t_k_1 + 2
            }),
            start <= t_k <= t_max + 1,
            t_max < usize::MAX,
            row@.len() == t_k - start,
            forall|j: int|
                0 <= j < row@.len() ==> C::spec_value(*data, t_k_1 as int, start + j) == Some(
                    #[trigger] row@[j],
                ),
        decreases t_max + 1 - t_k,
    {
        match C::calc_value(data, t_k_1, t_k) {
            Ok(v) => row.push(v),
            Err(e) => {
                return Err(e);
            },
        }
        t_k = t_k + 1;
    }
    Ok(row)
}

/// Stores the score between any two valid change points in a jagged
/// table: row 0 holds the segments from the virtual start (the special
/// first pair `(0, 1)` included) at `[0][t_k - 1]`, and every other row
/// its pairs at `[t_k_1][t_k - t_k_1 - 2]`.
pub trait DictTT<Val: ValOps + Send, Ipt: Sync>: CalcTT<Val, Ipt> + Sized {
    /// The stored jagged table, abstractly.
    spec fn spec_table(&self) -> Seq<Seq<Val>>;

    /// Returns the stored table of pairwise scores.
    fn value_tt_all(&self) -> (r: Vec<Vec<Val>>)
        ensures
            table_view(r) == self.spec_table(),
    ;

    /// Looks up the stored score for the pair `(t_k_1, t_k)`, after
    /// validating the ordering invariant and the table bounds. Row 0
    /// holds every segment from the virtual start, the special first
    /// pair `(0, 1)` included.
    fn value_tt(&self, t_k_1: Tau, t_k: Tau) -> (r: Result<Val, CalcDpError>)
        ensures
            match r {
                Ok(v) => value_tt_spec(self.spec_table(), t_k_1 as int, t_k as int) == Some(v),
                Err(_) => value_tt_spec(self.spec_table(), t_k_1 as int, t_k as int) is None,
            },
    {
        match order_change_point(&t_k_1, &t_k) {
            Err(e) => {
                return Err(e);
            },
            Ok(()) => {},
        }
        let vals_all = self.value_tt_all();
        if t_k_1 >= vals_all.len() {
            return Err(
                CalcDpError { message: "Index tau_{k-1} is out of range.".to_owned() },
            );
        }
        let index_tt = if t_k_1 == 0 {
            t_k - 1
        } else {
            t_k - t_k_1 - 2
        };
        if index_tt >= vals_all[t_k_1].len() {
            Err(CalcDpError { message: "Index tau_k is out of range.".to_owned() })
        } else {
            Ok(vals_all[t_k_1][index_tt].clone_val())
        }
    }

    /// Builds the complete pairwise table for `data` up to `t_max`.
    ///
    /// The rows (outer index `t_k_1`) are computed as independent,
    /// data-parallel units of work; the result is their element-wise
    /// assembly, and the whole build fails with one of the evaluator
    /// errors if any evaluator call fails.
    fn calc_value_all(data: &Ipt, t_max: &Tau) -> (r: Result<Vec<Vec<Val>>, CalcDpError>)
        requires
            1 <= *t_max < usize::MAX,
        ensures
            match r {
                Ok(tab) => is_value_table::<Val, Ipt, Self>(table_view(tab), *data, *t_max as int),
                Err(_) => exists|i: int, t_k: int|
                    0 <= i < (if *t_max == 1 {
                        1int
                    } else {
                        *t_max - 1
                    }) && (if i == 0 {
                        1int
                    } else {
                        i + 2
                    }) <= t_k <= *t_max && Self::spec_value(*data, i, t_k) is None,
            },
    {
        if *t_max == 1 {
            // a single row: only the special first pair fits before time 1
            match calc_row::<Val, Ipt, Self>(data, 0, 1) {
                Ok(row) => {
                    let mut tab: Vec<Vec<Val>> = Vec::new();
                    tab.push(row);
                    proof {
                        assert(table_view(tab).len() == 1);
                        assert(table_view(tab)[0].len() == 1);
                    }
                    Ok(tab)
                },
                Err(e) => Err(e),
            }
        } else {
            build_rows_parallel::<Val, Ipt, Self>(data, *t_max)
        }
    }
}

/// The cache is a pure memoization of the evaluator: looking up any
/// ordering-valid pair within range of a completely built table returns
/// exactly what a direct `calc_value` call computes.
pub proof fn lemma_value_tt_matches_calc_value<Val, Ipt, C: CalcTT<Val, Ipt>>(
    tab: Seq<Seq<Val>>,
    data: Ipt,
    t_max: int,
    t_k_1: int,
    t_k: int,
)
    requires
        is_value_table::<Val, Ipt, C>(tab, data, t_max),
        order_ok(t_k_1, t_k),
        0 <= t_k_1,
        t_k <= t_max,
    ensures
        value_tt_spec(tab, t_k_1, t_k) == C::spec_value(data, t_k_1, t_k),
{
    if t_k_1 == 0 {
        assert(1 <= t_k);
        assert(t_k - 1 < tab[0].len());
        assert(C::spec_value(data, 0, (t_k - 1) + 1) == Some(tab[0][t_k - 1]));
    } else {
        assert(t_k_1 + 2 <= t_k);
        assert(t_k_1 < tab.len());
        assert(t_k - t_k_1 - 2 < tab[t_k_1].len());
        assert(C::spec_value(data, t_k_1, t_k_1 + 2 + (t_k - t_k_1 - 2)) == Some(
            tab[t_k_1][t_k - t_k_1 - 2],
        ));
    }
}

/// Relies on rayon's `into_par_iter().map(..).collect::<Result<..>>()`
/// over the row indices `0 .. t_max - 1`: the closure only calls the
/// verified `calc_row` (whose row 0 carries the special first pair);
/// collection into `Result` is `Ok` with every row in index order exactly
/// when every row computation returns `Ok`, and otherwise `Err` with one
/// of the observed errors (which one is unspecified when several parallel
/// rows fail).
#[verifier::external_body]
fn build_rows_parallel<Val: Send, Ipt: Sync, C: CalcTT<Val, Ipt>>(data: &Ipt, t_max: Tau) -> (r:
    Result<Vec<Vec<Val>>, CalcDpError>)
    requires
        2 <= t_max < usize::MAX,
    ensures
        match r {
            Ok(tab) => is_value_table::<Val, Ipt, C>(table_view(tab), *data, t_max as int),
            Err(_) => exists|i: int, t_k: int|
                0 <= i < t_max - 1 && (if i == 0 {
                    1int
                } else {
                    i + 2
                }) <= t_k <= t_max && C::spec_value(*data, i, t_k) is None,
        },
{
    (0..(t_max - 1)).into_par_iter().map(|t_k_1| calc_row::<Val, Ipt, C>(data, t_k_1, t_max)).collect()
}

} // verus!

verus! {

/// The integer abstraction of an exec sequence of change points.
pub open spec fn cps_view(cps: Seq<Tau>) -> Seq<int> {
    cps.map_values(|x: Tau| x as int)
}

/// Left fold of the cached pairwise scores along consecutive change-point
/// pairs, starting from accumulator `acc` and previous point `prev`;
/// `None` as soon as one lookup fails.
pub open spec fn sum_cp_from_spec<V: ValOps>(
    tab: Seq<Seq<V>>,
    acc: V,
    prev: int,
    cps: Seq<int>,
) -> Option<V>
    decreases cps.len(),
{
    if cps.len() == 0 {
        Some(acc)
    } else {
        match value_tt_spec(tab, prev, cps[0]) {
            None => None,
            Some(v) => sum_cp_from_spec(tab, acc.add_spec(v), cps[0], cps.drop_first()),
        }
    }
}

/// Total cached score of a change-point sequence: the pairs are the
/// sequence prefixed by the virtual start 0 and zipped with itself, and
/// the fold starts from the sum's identity element.
pub open spec fn sum_cp_spec<V: ValOps>(tab: Seq<Seq<V>>, cps: Seq<int>) -> Option<V> {
    sum_cp_from_spec(tab, V::zero_spec(), 0, cps)
}

/// Evaluates a caller-chosen explicit change-point sequence, either via a
/// fully custom scoring path or by summing cached pairwise scores.
pub trait DictToFunc<Val: ValOps + Send, Ipt: Sync>: DictTT<Val, Ipt> {
    /// What `evaluate` returns, on every input.
    spec fn spec_evaluate(&self, change_points: Seq<int>) -> Option<Val>;

    /// Caller-defined, possibly non-decomposable total score of an
    /// explicit increasing change-point sequence.
    fn evaluate(&self, change_points: &Vec<Tau>) -> (r: Result<Val, CalcDpError>)
        ensures
            match r {
                Ok(v) => self.spec_evaluate(cps_view(change_points@)) == Some(v),
                Err(_) => self.spec_evaluate(cps_view(change_points@)) is None,
            },
    ;

    /// Sums the cached pairwise scores over the consecutive pairs of the
    /// given change points, prefixed by the virtual start.
    ///
    /// This is the cached-table-backed total; it agrees with `evaluate`
    /// only when the caller's scoring function is additive across
    /// segments.
    fn sum_frol_cp(&self, change_points: &Vec<Tau>) -> (r: Result<Val, CalcDpError>)
        ensures
            match r {
                Ok(v) => sum_cp_spec(self.spec_table(), cps_view(change_points@)) == Some(v),
                Err(_) => sum_cp_spec(self.spec_table(), cps_view(change_points@)) is None,
            },
    {
        let ghost cps: Seq<int> = cps_view(change_points@);
        let mut acc: Val = Val::zero_val();
        let mut prev: Tau = 0;
        let mut idx: usize = 0;
        proof {
            assert(cps.skip(0) =~= cps);
        }
        while idx < change_points.len()
            invariant
                0 <= idx <= change_points@.len(),
                cps == cps_view(change_points@),
                idx >= 1 ==> prev == cps[idx - 1],
                idx == 0 ==> prev == 0,
                sum_cp_spec(self.spec_table(), cps) == sum_cp_from_spec(
                    self.spec_table(),
                    acc,
                    prev as int,
                    cps.skip(idx as int),
                ),
            decreases change_points@.len() - idx,
        {
            let t_k = change_points[idx];
            match self.value_tt(prev, t_k) {
                Ok(v) => {
                    proof {
                        assert(cps.skip(idx as int).drop_first() =~= cps.skip(idx as int + 1));
                        assert(cps.skip(idx as int)[0] == t_k as int);
                    }
                    acc = acc.add_val(&v);
                },
                Err(e) => {
                    proof {
                        assert(cps.skip(idx as int)[0] == t_k as int);
                    }
                    return Err(e);
                },
            }
            prev = t_k;
            idx = idx + 1;
        }
        proof {
            assert(cps.skip(idx as int) =~= Seq::<int>::empty());
        }
        Ok(acc)
    }
}

} // verus!

verus! {

/// Maximum number of change points that can precede time `t` under the
/// minimum-spacing rule.
pub open spec fn spec_max_k(t: int) -> int {
    (t - 1) / 2
}

/// The integer abstraction of a memo cell.
pub open spec fn cell_view<V>(c: (Tau, NumChg, V)) -> (int, int, V) {
    (c.0 as int, c.1 as int, c.2)
}

/// The integer abstraction of an optional memo cell.
pub open spec fn opt_cell_view<V>(c: Option<(Tau, NumChg, V)>) -> Option<(int, int, V)> {
    match c {
        None => None,
        Some(x) => Some(cell_view(x)),
    }
}

/// The integer abstraction of the whole memo table.
pub open spec fn memo_view<V>(m: Vec<Vec<Option<(Tau, NumChg, V)>>>) -> Seq<
    Seq<Option<(int, int, V)>>,
> {
    m@.map_values(
        |row: Vec<Option<(Tau, NumChg, V)>>|
            row@.map_values(|c: Option<(Tau, NumChg, V)>| opt_cell_view(c)),
    )
}

/// The final time step a memo table was sized for.
pub open spec fn t_max_of<V>(m: Seq<Seq<Option<(int, int, V)>>>) -> int {
    m[0].len() - 1
}

/// Whether the memo table has the shape `calc_memo_all` allocates: one row
/// per change count `k` in `0 ..= spec_max_k(t_max)`, row `k` holding the
/// cells for `t` in `2k ..= t_max` (column `j` stands for `t == j + 2k`).
pub open spec fn memo_shaped<V>(m: Seq<Seq<Option<(int, int, V)>>>) -> bool {
    &&& m.len() >= 1
    &&& m[0].len() >= 2
    &&& m.len() == spec_max_k(t_max_of(m)) + 1
    &&& forall|k: int| 0 <= k < m.len() ==> #[trigger] m[k].len() == m[0].len() - 2 * k
}

/// Whether `(t, k)` addresses a meaningful cell of the memo table.
pub open spec fn idx_ok<V>(m: Seq<Seq<Option<(int, int, V)>>>, t: int, k: int) -> bool {
    &&& 1 <= t <= t_max_of(m)
    &&& 0 <= k <= spec_max_k(t)
}

/// Structural soundness of every filled cell, enough for backtracking to
/// terminate: the stored count equals the row's count, and the stored
/// predecessor lies strictly below the cell's time and inside the
/// candidate range of the minimum-spacing rule.
pub open spec fn memo_steps_ok<V>(m: Seq<Seq<Option<(int, int, V)>>>) -> bool {
    forall|k: int, j: int|
        0 <= k < m.len() && 0 <= j < m[k].len() ==> (#[trigger] m[k][j] matches Some(c) ==> {
            &&& c.1 == k
            &&& 0 <= c.0 < j + 2 * k
            &&& (k == 0 ==> c.0 == 0)
            &&& (k >= 1 ==> 2 * k - 1 <= c.0 <= j + 2 * k - 2)
        })
}

/// The value of the candidate with predecessor `i` for the state `(t, k)`:
/// the optimal value at `(i, k - 1)` combined with the segment score from
/// `i` to `t`; `None` when either part fails.
pub open spec fn cand_val<Val: ValOps, Ipt, C: CalcTT<Val, Ipt>>(
    data: Ipt,
    t: int,
    k: int,
    i: int,
) -> Option<Val>
    decreases k, 0int, 0int,
{
    if k < 1 {
        None
    } else {
        match (cell_rec::<Val, Ipt, C>(data, i, k - 1), C::spec_value(data, i, t)) {
            (Some(cell), Some(v)) => Some(cell.2.add_spec(v)),
            _ => None,
        }
    }
}

/// Best candidate for `(t, k)` among predecessors `2k - 1 ..= i`, scanned
/// left to right, a later candidate displacing the incumbent whenever its
/// value is greater than or equal; `None` as soon as any candidate fails.
pub open spec fn cand_rec<Val: ValOps, Ipt, C: CalcTT<Val, Ipt>>(
    data: Ipt,
    t: int,
    k: int,
    i: int,
) -> Option<(int, int, Val)>
    decreases k, 0int, i + 1,
{
    if k < 1 || i < 2 * k - 1 {
        None
    } else {
        match cand_val::<Val, Ipt, C>(data, t, k, i) {
            None => None,
            Some(v) => {
                if i == 2 * k - 1 {
                    Some((i, k, v))
                } else {
                    match cand_rec::<Val, Ipt, C>(data, t, k, i - 1) {
                        None => None,
                        Some(prev) => if prev.2.le_spec(v) {
                            Some((i, k, v))
                        } else {
                            Some(prev)
                        },
                    }
                }
            },
        }
    }
}

/// The dynamic-programming recurrence: the optimal memo cell for the
/// state `(t, k)`, or `None` when an evaluator call it depends on fails.
pub open spec fn cell_rec<Val: ValOps, Ipt, C: CalcTT<Val, Ipt>>(
    data: Ipt,
    t: int,
    k: int,
) -> Option<(int, int, Val)>
    decreases k, 1int, 0int,
{
    if k <= 0 {
        match C::spec_value(data, 0, t) {
            Some(v) => Some((0, 0, v)),
            None => None,
        }
    } else if t < 2 * k + 1 {
        None
    } else {
        cand_rec::<Val, Ipt, C>(data, t, k, t - 2)
    }
}

/// Whether every filled cell of the memo holds exactly what the
/// recurrence defines for its state (and no cell sits at the degenerate
/// time 0).
pub open spec fn memo_valid<Val: ValOps, Ipt, C: CalcTT<Val, Ipt>>(
    m: Seq<Seq<Option<(int, int, Val)>>>,
    data: Ipt,
) -> bool {
    &&& memo_shaped(m)
    &&& forall|k: int, j: int|
        0 <= k < m.len() && 0 <= j < m[k].len() && (#[trigger] m[k][j]) is Some ==> {
            &&& j + 2 * k >= 1
            &&& m[k][j] == cell_rec::<Val, Ipt, C>(data, j + 2 * k, k)
        }
}

} // verus!

verus! {

/// Any best candidate returned for `(t, k)` over `2k - 1 ..= i` is itself
/// one of the candidates: its predecessor lies in the range, its count is
/// `k`, and its value is that predecessor's candidate value.
pub proof fn lemma_cand_rec_shape<Val: ValOps, Ipt, C: CalcTT<Val, Ipt>>(
    data: Ipt,
    t: int,
    k: int,
    i: int,
)
    requires
        k >= 1,
        i >= 2 * k - 1,
    ensures
        cand_rec::<Val, Ipt, C>(data, t, k, i) matches Some(c) ==> {
            &&& c.1 == k
            &&& 2 * k - 1 <= c.0 <= i
            &&& cand_val::<Val, Ipt, C>(data, t, k, c.0) == Some(c.2)
        },
    decreases i,
{
    if i > 2 * k - 1 {
        lemma_cand_rec_shape::<Val, Ipt, C>(data, t, k, i - 1);
    }
}

/// Any cell the recurrence yields is well-formed: its count matches, its
/// predecessor lies in the candidate range (or is the virtual start for
/// count 0), and its value is the corresponding candidate value.
pub proof fn lemma_cell_rec_shape<Val: ValOps, Ipt, C: CalcTT<Val, Ipt>>(data: Ipt, t: int, k: int)
    ensures
        k <= 0 ==> (cell_rec::<Val, Ipt, C>(data, t, k) matches Some(c) ==> {
            &&& c.0 == 0
            &&& c.1 == 0
            &&& C::spec_value(data, 0, t) == Some(c.2)
        }),
        k >= 1 ==> (cell_rec::<Val, Ipt, C>(data, t, k) matches Some(c) ==> {
            &&& c.1 == k
            &&& 2 * k - 1 <= c.0 <= t - 2
            &&& t >= 2 * k + 1
            &&& cand_val::<Val, Ipt, C>(data, t, k, c.0) == Some(c.2)
        }),
{
    if k >= 1 && t >= 2 * k + 1 {
        lemma_cand_rec_shape::<Val, Ipt, C>(data, t, k, t - 2);
    }
}

/// A memo whose filled cells all agree with the recurrence is in
/// particular structurally sound for backtracking.
pub proof fn lemma_memo_valid_steps_ok<Val: ValOps, Ipt, C: CalcTT<Val, Ipt>>(
    m: Seq<Seq<Option<(int, int, Val)>>>,
    data: Ipt,
)
    requires
        memo_valid::<Val, Ipt, C>(m, data),
    ensures
        memo_steps_ok(m),
{
    assert forall|k: int, j: int| 0 <= k < m.len() && 0 <= j < m[k].len() implies (
    #[trigger] m[k][j] matches Some(c) ==> {
        &&& c.1 == k
        &&& 0 <= c.0 < j + 2 * k
        &&& (k == 0 ==> c.0 == 0)
        &&& (k >= 1 ==> 2 * k - 1 <= c.0 <= j + 2 * k - 2)
    }) by {
        if m[k][j] is Some {
            lemma_cell_rec_shape::<Val, Ipt, C>(data, j + 2 * k, k);
        }
    }
}

} // verus!

verus! {

/// Computes optimal cumulative scores by dynamic programming over a
/// memoized table of states `(t, k)`; each cell transitions from unfilled
/// to filled exactly once and holds `(predecessor, count, value)`.
pub trait CalcDP<Val: ValOps, Ipt>: CalcTT<Val, Ipt> + Sized {
    /// The stored memo table, abstractly.
    spec fn spec_memo(&self) -> Seq<Seq<Option<(int, int, Val)>>>;

    /// Returns the stored memo table, as computed by `calc_memo_all`.
    fn memo_all(&self) -> (r: Vec<Vec<Option<(Tau, NumChg, Val)>>>)
        ensures
            memo_view(r) == self.spec_memo(),
    ;

    /// Maximum change-point count for the given final time step.
    fn calc_max_k(t_max: &Tau) -> (r: NumChg)
        requires
            *t_max >= 1,
        ensures
            r == spec_max_k(*t_max as int),
    {
        (*t_max - 1) / 2
    }

    /// Validates the state `(t, k)` against the memo table's bounds.
    fn check_idx_memo(
        t: &Tau,
        k: &NumChg,
        memo: &Vec<Vec<Option<(Tau, NumChg, Val)>>>,
    ) -> (r: Result<(), CalcDpError>)
        requires
            memo@.len() >= 1,
            memo@[0]@.len() >= 1,
        ensures
            r is Ok <==> idx_ok(memo_view(*memo), *t as int, *k as int),
    {
        check_idx_state(t, k, memo)
    }

    /// Reads the cell for the state `(t, k)` from the memo table.
    fn get_from_memo(
        t: &Tau,
        k: &NumChg,
        memo: &Vec<Vec<Option<(Tau, NumChg, Val)>>>,
    ) -> (r: Result<Option<(Tau, NumChg, Val)>, CalcDpError>)
        requires
            memo_shaped(memo_view(*memo)),
        ensures
            match r {
                Ok(c) => idx_ok(memo_view(*memo), *t as int, *k as int) && opt_cell_view(c)
                    == memo_view(*memo)[*k as int][*t - 2 * *k],
                Err(_) => !idx_ok(memo_view(*memo), *t as int, *k as int),
            },
    {
        read_memo_cell(t, k, memo)
    }

    /// Writes the cell `val` for the state `(t, val.1)` into the memo
    /// table and hands the stored value back.
    fn set_from_memo(
        t: &Tau,
        val: (Tau, NumChg, Val),
        memo: &mut Vec<Vec<Option<(Tau, NumChg, Val)>>>,
    ) -> (r: Result<(Tau, NumChg, Val), CalcDpError>)
        requires
            memo_shaped(memo_view(*old(memo))),
        ensures
            match r {
                Ok(v) => {
                    &&& idx_ok(memo_view(*old(memo)), *t as int, val.1 as int)
                    &&& cell_view(v) == cell_view(val)
                    &&& memo_view(*final(memo)) == memo_view(*old(memo)).update(
                        val.1 as int,
                        memo_view(*old(memo))[val.1 as int].update(
                            *t - 2 * (val.1 as int),
                            Some(cell_view(val)),
                        ),
                    )
                },
                Err(_) => (!idx_ok(memo_view(*old(memo)), *t as int, val.1 as int)
                    && *final(memo) == *old(memo)),
            },
    {
        write_memo_cell(t, val, memo)
    }

    /// Returns the optimal value stored for the state `(t, k)`, failing
    /// when the state is out of range or its cell was never calculated.
    fn get_value(&self, t: &Tau, k: &NumChg) -> (r: Result<Val, CalcDpError>)
        requires
            memo_shaped(self.spec_memo()),
        ensures
            match r {
                Ok(v) => {
                    &&& idx_ok(self.spec_memo(), *t as int, *k as int)
                    &&& self.spec_memo()[*k as int][*t - 2 * *k] matches Some(c) && c.2 == v
                },
                Err(_) => !idx_ok(self.spec_memo(), *t as int, *k as int) || self.spec_memo()[
                    *k as int
                ][*t - 2 * *k] is None,
            },
    {
        match Self::get_from_memo(t, k, &self.memo_all()) {
            Err(e) => Err(e),
            Ok(None) => Err(
                CalcDpError { message: "Value has not calculated yet.".to_owned() },
            ),
            Ok(Some(v)) => Ok(v.2),
        }
    }

    /// Computes the optimal cell for the state `(t, k)` by the memoized
    /// recurrence, filling the memo along the way: the base count 0 scores
    /// the single segment from the virtual start, and a positive count
    /// scans every candidate predecessor, a later candidate displacing the
    /// incumbent whenever its value is greater than or equal (ties thus
    /// resolve to the largest predecessor).
    fn calc_memo(
        t: &Tau,
        k: &NumChg,
        memo: &mut Vec<Vec<Option<(Tau, NumChg, Val)>>>,
        data: &Ipt,
    ) -> (r: Result<(Tau, NumChg, Val), CalcDpError>)
        requires
            memo_valid::<Val, Ipt, Self>(memo_view(*old(memo)), *data),
        ensures
            memo_valid::<Val, Ipt, Self>(memo_view(*final(memo)), *data),
            memo_view(*final(memo)).len() == memo_view(*old(memo)).len(),
            t_max_of(memo_view(*final(memo))) == t_max_of(memo_view(*old(memo))),
            forall|k2: int, j2: int|
                0 <= k2 < memo_view(*old(memo)).len() && 0 <= j2 < memo_view(*old(memo))[k2].len()
                    && (#[trigger] memo_view(*old(memo))[k2][j2]) is Some ==> memo_view(
                    *final(memo),
                )[k2][j2] == memo_view(*old(memo))[k2][j2],
            forall|k2: int, j2: int|
                0 <= k2 < memo_view(*old(memo)).len() && 0 <= j2 < memo_view(*old(memo))[k2].len()
                    && k2 > *k as int ==> memo_view(*final(memo))[k2][j2] == memo_view(
                    *old(memo),
                )[k2][j2],
            forall|j2: int|
                (*k as int) < memo_view(*old(memo)).len() && 0 <= j2 < memo_view(
                    *old(memo),
                )[*k as int].len() && j2 != *t - 2 * *k ==> memo_view(*final(memo))[*k as int][j2]
                    == memo_view(*old(memo))[*k as int][j2],
            match r {
                Ok(c) => {
                    &&& idx_ok(memo_view(*old(memo)), *t as int, *k as int)
                    &&& Some(cell_view(c)) == cell_rec::<Val, Ipt, Self>(
                        *data,
                        *t as int,
                        *k as int,
                    )
                    &&& memo_view(*final(memo))[*k as int][*t - 2 * *k] == Some(cell_view(c))
                },
                Err(_) => (!idx_ok(memo_view(*old(memo)), *t as int, *k as int) || cell_rec::<
                    Val,
                    Ipt,
                    Self,
                >(*data, *t as int, *k as int) is None) && forall|j2: int|
                    (*k as int) < memo_view(*old(memo)).len() && 0 <= j2 < memo_view(
                        *old(memo),
                    )[*k as int].len() ==> memo_view(*final(memo))[*k as int][j2] == memo_view(
                        *old(memo),
                    )[*k as int][j2],
            },
    {
        calc_memo_rec::<Val, Ipt, Self>(t, k, memo, data)
    }

    /// Allocates the memo table for `t_max` and fills it by invoking the
    /// recursive computation rooted at `(t_max, k)` for every `k` from 0
    /// to the maximum; cells never reached by any of those computations
    /// remain unfilled.
    fn calc_memo_all(data: &Ipt, t_max: &Tau) -> (r: Result<
        Vec<Vec<Option<(Tau, NumChg, Val)>>>,
        CalcDpError,
    >)
        requires
            1 <= *t_max < usize::MAX,
        ensures
            match r {
                Ok(memo) => {
                    &&& memo_valid::<Val, Ipt, Self>(memo_view(memo), *data)
                    &&& t_max_of(memo_view(memo)) == *t_max
                    &&& forall|k: int|
                        0 <= k <= spec_max_k(*t_max as int) ==> (#[trigger] memo_view(
                            memo,
                        )[k][*t_max - 2 * k]) is Some && memo_view(memo)[k][*t_max - 2 * k]
                            == cell_rec::<Val, Ipt, Self>(*data, *t_max as int, k)
                },
                Err(_) => exists|k: int|
                    0 <= k <= spec_max_k(*t_max as int) && cell_rec::<Val, Ipt, Self>(
                        *data,
                        *t_max as int,
                        k,
                    ) is None,
            },
    {
        build_full_memo::<Val, Ipt, Self>(data, *t_max)
    }

    /// Backtracks from the state `(t, k)`: reads each visited cell,
    /// appends it to the result, and moves to the stored predecessor
    /// (decrementing the count until it reaches 0), stopping at the
    /// virtual start; fails as soon as a visited cell is unfilled or out
    /// of range.
    fn get_value_history(&self, t: &Tau, k: &NumChg) -> (r: Result<
        Vec<(Tau, NumChg, Val)>,
        CalcDpError,
    >)
        requires
            memo_shaped(self.spec_memo()),
            memo_steps_ok(self.spec_memo()),
        ensures
            match r {
                Ok(h) => chain_rec(self.spec_memo(), *t as int, *k as int) == Some(hist_view(h@)),
                Err(_) => chain_rec(self.spec_memo(), *t as int, *k as int) is None,
            },
    {
        let mut now_t: Tau = *t;
        let mut now_k: NumChg = *k;
        let memo = self.memo_all();
        let mut res: Vec<(Tau, NumChg, Val)> = Vec::new();
        while now_t > 0
            invariant
                memo_view(memo) == self.spec_memo(),
                memo_shaped(self.spec_memo()),
                memo_steps_ok(self.spec_memo()),
                chain_rec(self.spec_memo(), *t as int, *k as int) == (match chain_rec(
                    self.spec_memo(),
                    now_t as int,
                    now_k as int,
                ) {
                    None => None::<Seq<(int, int, Val)>>,
                    Some(rest) => Some(hist_view(res@) + rest),
                }),
            decreases now_t,
        {
            let memo_tk = match Self::get_from_memo(&now_t, &now_k, &memo) {
                Err(e) => {
                    return Err(e);
                },
                Ok(None) => {
                    return Err(
                        CalcDpError { message: "Uncalculated value exist.".to_owned() },
                    );
                },
                Ok(Some(v)) => v,
            };
            proof {
                let m = self.spec_memo();
                let c = m[now_k as int][now_t - 2 * now_k];
                assert(c matches Some(cc) && cc == cell_view(memo_tk));
                assert((now_t - 2 * now_k) + 2 * (now_k as int) == now_t as int);
                assert(cell_view(memo_tk).1 == now_k as int);
                assert(0 <= cell_view(memo_tk).0 < now_t as int);
            }
            now_t = memo_tk.0;
            if memo_tk.1 != 0 {
                now_k = memo_tk.1 - 1;
            }
            res.push(memo_tk);
            proof {
                assert(hist_view(res@) =~= hist_view(res@.drop_last()).push(cell_view(memo_tk)));
            }
        }
        proof {
            assert(chain_rec(self.spec_memo(), now_t as int, now_k as int) == Some(Seq::<
                (int, int, Val),
            >::empty()));
            assert(hist_view(res@) + Seq::<(int, int, Val)>::empty() =~= hist_view(res@));
        }
        Ok(res)
    }
}

} // verus!

verus! {

/// Bounds that a valid state enjoys inside a well-shaped memo.
pub proof fn lemma_idx_ok_bounds<V>(m: Seq<Seq<Option<(int, int, V)>>>, t: int, k: int)
    requires
        memo_shaped(m),
        idx_ok(m, t, k),
    ensures
        0 <= k < m.len(),
        1 <= t - 2 * k < m[k].len(),
        t >= 2 * k + 1,
{
    assert(2 * k <= t - 1);
    assert(2 * spec_max_k(t_max_of(m)) <= t_max_of(m) - 1);
}

/// Once one candidate in the scanned range fails, the whole best-candidate
/// scan fails.
pub proof fn lemma_cand_rec_none<Val: ValOps, Ipt, C: CalcTT<Val, Ipt>>(
    data: Ipt,
    t: int,
    k: int,
    i: int,
    j: int,
)
    requires
        k >= 1,
        2 * k - 1 <= i <= j,
        cand_val::<Val, Ipt, C>(data, t, k, i) is None,
    ensures
        cand_rec::<Val, Ipt, C>(data, t, k, j) is None,
    decreases j,
{
    if j > i {
        lemma_cand_rec_none::<Val, Ipt, C>(data, t, k, i, j - 1);
    }
}

/// Filling the cell of a valid state with exactly what the recurrence
/// defines keeps the memo valid and its shape unchanged.
pub proof fn lemma_memo_valid_update<Val: ValOps, Ipt, C: CalcTT<Val, Ipt>>(
    m: Seq<Seq<Option<(int, int, Val)>>>,
    data: Ipt,
    t: int,
    k: int,
    c: (int, int, Val),
)
    requires
        memo_valid::<Val, Ipt, C>(m, data),
        idx_ok(m, t, k),
        cell_rec::<Val, Ipt, C>(data, t, k) == Some(c),
    ensures
        memo_valid::<Val, Ipt, C>(m.update(k, m[k].update(t - 2 * k, Some(c))), data),
        t_max_of(m.update(k, m[k].update(t - 2 * k, Some(c)))) == t_max_of(m),
{
    lemma_idx_ok_bounds(m, t, k);
    let nm = m.update(k, m[k].update(t - 2 * k, Some(c)));
    assert(nm[0].len() == m[0].len());
    assert forall|k2: int| 0 <= k2 < nm.len() implies #[trigger] nm[k2].len() == nm[0].len() - 2
        * k2 by {
        assert(m[k2].len() == m[0].len() - 2 * k2);
    }
    assert forall|k2: int, j2: int|
        0 <= k2 < nm.len() && 0 <= j2 < nm[k2].len() && (#[trigger] nm[k2][j2]) is Some implies {
        &&& j2 + 2 * k2 >= 1
        &&& nm[k2][j2] == cell_rec::<Val, Ipt, C>(data, j2 + 2 * k2, k2)
    } by {
        if k2 == k && j2 == t - 2 * k {
            assert(nm[k2][j2] == Some(c));
        } else {
            assert(nm[k2][j2] == m[k2][j2]);
        }
    }
}

} // verus!

verus! {

/// Validates the state `(t, k)` against the memo table's bounds (the
/// engine behind `CalcDP::check_idx_memo`).
fn check_idx_state<V>(
    t: &Tau,
    k: &NumChg,
    memo: &Vec<Vec<Option<(Tau, NumChg, V)>>>,
) -> (r: Result<(), CalcDpError>)
    requires
        memo@.len() >= 1,
        memo@[0]@.len() >= 1,
    ensures
        r is Ok <==> idx_ok(memo_view(*memo), *t as int, *k as int),
{
    if *t > memo[0].len() - 1 {
        return Err(CalcDpError { message: "Time step t is out of range.".to_owned() });
    }
    if *t == 0 {
        return Err(CalcDpError { message: "Time step must be greater than 0".to_owned() });
    }
    let max_k = (*t - 1) / 2;
    if *k > max_k {
        Err(
            CalcDpError {
                message: "The number of change points k exceeds the maximum for t.".to_owned(),
            },
        )
    } else {
        Ok(())
    }
}

/// Reads the cell for the state `(t, k)` (the engine behind
/// `CalcDP::get_from_memo`).
fn read_memo_cell<V: ValOps>(
    t: &Tau,
    k: &NumChg,
    memo: &Vec<Vec<Option<(Tau, NumChg, V)>>>,
) -> (r: Result<Option<(Tau, NumChg, V)>, CalcDpError>)
    requires
        memo_shaped(memo_view(*memo)),
    ensures
        match r {
            Ok(c) => idx_ok(memo_view(*memo), *t as int, *k as int) && opt_cell_view(c)
                == memo_view(*memo)[*k as int][*t - 2 * *k],
            Err(_) => !idx_ok(memo_view(*memo), *t as int, *k as int),
        },
{
    match check_idx_state(t, k, memo) {
        Err(e) => {
            return Err(e);
        },
        Ok(()) => {},
    }
    proof {
        let m = memo_view(*memo);
        assert(m.len() == memo@.len());
        assert(m[*k as int].len() == memo@[*k as int]@.len());
        assert(2 * (*k as int) <= *t as int - 1);
        assert(m[*k as int].len() == m[0].len() - 2 * (*k as int));
    }
    let row = &memo[*k];
    let cell = &row[*t - *k * 2];
    proof {
        assert(memo_view(*memo)[*k as int][*t - 2 * *k] == opt_cell_view(
            memo@[*k as int]@[*t - 2 * *k],
        ));
    }
    match cell {
        None => Ok(None),
        Some(c) => Ok(Some((c.0, c.1, c.2.clone_val()))),
    }
}

/// Writes the cell `val` for the state `(t, val.1)` (the engine behind
/// `CalcDP::set_from_memo`).
fn write_memo_cell<V: ValOps>(
    t: &Tau,
    val: (Tau, NumChg, V),
    memo: &mut Vec<Vec<Option<(Tau, NumChg, V)>>>,
) -> (r: Result<(Tau, NumChg, V), CalcDpError>)
    requires
        memo_shaped(memo_view(*old(memo))),
    ensures
        match r {
            Ok(v) => {
                &&& idx_ok(memo_view(*old(memo)), *t as int, val.1 as int)
                &&& cell_view(v) == cell_view(val)
                &&& memo_view(*final(memo)) == memo_view(*old(memo)).update(
                    val.1 as int,
                    memo_view(*old(memo))[val.1 as int].update(
                        *t - 2 * (val.1 as int),
                        Some(cell_view(val)),
                    ),
                )
            },
            Err(_) => (!idx_ok(memo_view(*old(memo)), *t as int, val.1 as int) && *final(memo)
                == *old(memo)),
        },
{
    let k = val.1;
    match check_idx_state(t, &k, memo) {
        Err(e) => {
            return Err(e);
        },
        Ok(()) => {},
    }
    proof {
        let m = memo_view(*memo);
        assert(m.len() == memo@.len());
        assert(m[k as int].len() == memo@[k as int]@.len());
        assert(2 * (k as int) <= *t as int - 1);
        assert(m[k as int].len() == m[0].len() - 2 * (k as int));
    }
    let stored = (val.0, val.1, val.2.clone_val());
    let col = *t - k * 2;
    let row = &mut memo[k];
    row.set(col, Some(stored));
    proof {
        assert(memo_view(*memo) =~~= memo_view(*old(memo)).update(
            val.1 as int,
            memo_view(*old(memo))[val.1 as int].update(
                *t - 2 * (val.1 as int),
                Some(cell_view(val)),
            ),
        ));
    }
    Ok(val)
}

/// The recursive engine behind `CalcDP::calc_memo` (a free function,
/// since the recursion bottoms out by descending on the change count).
/// Computes the optimal cell for the state `(t, k)` by the memoized
/// recurrence, filling the memo along the way: the base count 0 scores
/// the single segment from the virtual start, and a positive count
/// scans every candidate predecessor, a later candidate displacing the
/// incumbent whenever its value is greater than or equal (ties thus
/// resolve to the largest predecessor).
fn calc_memo_rec<Val: ValOps, Ipt, C: CalcTT<Val, Ipt>>(
    t: &Tau,
    k: &NumChg,
    memo: &mut Vec<Vec<Option<(Tau, NumChg, Val)>>>,
    data: &Ipt,
) -> (r: Result<(Tau, NumChg, Val), CalcDpError>)
    requires
        memo_valid::<Val, Ipt, C>(memo_view(*old(memo)), *data),
    ensures
        memo_valid::<Val, Ipt, C>(memo_view(*final(memo)), *data),
        memo_view(*final(memo)).len() == memo_view(*old(memo)).len(),
        t_max_of(memo_view(*final(memo))) == t_max_of(memo_view(*old(memo))),
        forall|k2: int, j2: int|
            0 <= k2 < memo_view(*old(memo)).len() && 0 <= j2 < memo_view(*old(memo))[k2].len()
                && (#[trigger] memo_view(*old(memo))[k2][j2]) is Some ==> memo_view(
                *final(memo),
            )[k2][j2] == memo_view(*old(memo))[k2][j2],
        forall|k2: int, j2: int|
            0 <= k2 < memo_view(*old(memo)).len() && 0 <= j2 < memo_view(*old(memo))[k2].len()
                && k2 > *k as int ==> memo_view(*final(memo))[k2][j2] == memo_view(
                *old(memo),
            )[k2][j2],
        forall|j2: int|
            (*k as int) < memo_view(*old(memo)).len() && 0 <= j2 < memo_view(
                *old(memo),
            )[*k as int].len() && j2 != *t - 2 * *k ==> memo_view(*final(memo))[*k as int][j2]
                == memo_view(*old(memo))[*k as int][j2],
        match r {
            Ok(c) => {
                &&& idx_ok(memo_view(*old(memo)), *t as int, *k as int)
                &&& Some(cell_view(c)) == cell_rec::<Val, Ipt, C>(
                    *data,
                    *t as int,
                    *k as int,
                )
                &&& memo_view(*final(memo))[*k as int][*t - 2 * *k] == Some(cell_view(c))
            },
            Err(_) => (!idx_ok(memo_view(*old(memo)), *t as int, *k as int) || cell_rec::<
                Val,
                Ipt,
                C,
            >(*data, *t as int, *k as int) is None) && forall|j2: int|
                (*k as int) < memo_view(*old(memo)).len() && 0 <= j2 < memo_view(
                    *old(memo),
                )[*k as int].len() ==> memo_view(*final(memo))[*k as int][j2] == memo_view(
                    *old(memo),
                )[*k as int][j2],
        },
    decreases *k,
{
    match check_idx_state(t, k, memo) {
        Err(e) => {
            return Err(e);
        },
        Ok(()) => {},
    }
    proof {
        lemma_idx_ok_bounds(memo_view(*memo), *t as int, *k as int);
    }
    // count 0 is the tail of the recursion: one segment from the start
    if *k == 0 {
        match read_memo_cell(t, k, memo) {
            Err(e) => {
                return Err(e);
            },
            Ok(Some(v)) => {
                proof {
                    assert(memo_view(*memo)[0][*t as int] == cell_rec::<Val, Ipt, C>(
                        *data,
                        *t as int,
                        0,
                    ));
                }
                return Ok(v);
            },
            Ok(None) => {
                let eval = match C::calc_value(data, 0, *t) {
                    Ok(v) => v,
                    Err(e) => {
                        return Err(e);
                    },
                };
                let res_tk = (0, 0, eval);
                proof {
                    lemma_memo_valid_update::<Val, Ipt, C>(
                        memo_view(*memo),
                        *data,
                        *t as int,
                        0,
                        cell_view(res_tk),
                    );
                }
                let ghost mcur = memo_view(*memo);
                let res = write_memo_cell(t, res_tk, memo);
                proof {
                    assert(res is Ok);
                    assert(Some(cell_view(res_tk)) == cell_rec::<Val, Ipt, C>(
                        *data,
                        *t as int,
                        0,
                    ));
                    assert(memo_view(*memo)[0].len() == mcur[0].len());
                    assert forall|k2: int, j2: int|
                        0 <= k2 < mcur.len() && 0 <= j2 < mcur[k2].len() && (
                        #[trigger] mcur[k2][j2]) is Some implies memo_view(*memo)[k2][j2]
                        == mcur[k2][j2] by {
                        if !(k2 == 0 && j2 == *t as int) {
                            assert(memo_view(*memo)[k2][j2] == mcur[k2][j2]);
                        }
                    }
                }
                return res;
            },
        }
    }
    // positive count: scan every candidate predecessor
    let tt = *t;
    let kk = *k;
    let ghost m0 = memo_view(*old(memo));
    let mut best: Option<(Tau, NumChg, Val)> = None;
    let mut i: usize = kk * 2 - 1;
    while i <= tt - 2
        invariant
            kk == *k,
            tt == *t,
            m0 == memo_view(*old(memo)),
            memo_valid::<Val, Ipt, C>(m0, *data),
            1 <= kk,
            2 * kk + 1 <= tt <= t_max_of(m0),
            kk <= spec_max_k(tt as int),
            2 * kk - 1 <= i <= tt - 1,
            memo_valid::<Val, Ipt, C>(memo_view(*memo), *data),
            memo_view(*memo).len() == m0.len(),
            t_max_of(memo_view(*memo)) == t_max_of(m0),
            forall|k2: int, j2: int|
                0 <= k2 < m0.len() && 0 <= j2 < m0[k2].len() && (#[trigger] m0[k2][j2]) is Some
                    ==> memo_view(*memo)[k2][j2] == m0[k2][j2],
            forall|k2: int, j2: int|
                kk <= k2 < m0.len() && 0 <= j2 < m0[k2].len() ==> memo_view(*memo)[k2][j2] == (
                #[trigger] m0[k2][j2]),
            match best {
                None => i == 2 * kk - 1,
                Some(b) => cand_rec::<Val, Ipt, C>(*data, tt as int, kk as int, i - 1)
                    == Some(cell_view(b)),
            },
        decreases tt - 1 - i,
    {
        proof {
            assert(1 <= i);
            assert(2 * ((kk - 1) as int) <= i - 1);
            assert(idx_ok(memo_view(*memo), i as int, (kk - 1) as int));
        }
        let ghost mpre = memo_view(*memo);
        let max_k_1 = match read_memo_cell(&i, &(kk - 1), memo) {
            Err(e) => {
                return Err(e);
            },
            Ok(Some(v)) => {
                proof {
                    lemma_idx_ok_bounds(memo_view(*memo), i as int, (kk - 1) as int);
                    assert(memo_view(*memo)[(kk - 1) as int][i - 2 * (kk - 1)]
                        == cell_rec::<Val, Ipt, C>(*data, i as int, (kk - 1) as int));
                }
                v
            },
            Ok(None) => match calc_memo_rec::<Val, Ipt, C>(&i, &(kk - 1), memo, data) {
                Ok(v) => v,
                Err(e) => {
                    proof {
                        assert(cell_rec::<Val, Ipt, C>(
                            *data,
                            i as int,
                            (kk - 1) as int,
                        ) is None);
                        assert(cand_val::<Val, Ipt, C>(
                            *data,
                            tt as int,
                            kk as int,
                            i as int,
                        ) is None);
                        lemma_cand_rec_none::<Val, Ipt, C>(
                            *data,
                            tt as int,
                            kk as int,
                            i as int,
                            tt - 2,
                        );
                        assert(cell_rec::<Val, Ipt, C>(*data, tt as int, kk as int) is None);
                        assert forall|k2: int, j2: int|
                            kk <= k2 < m0.len() && 0 <= j2 < m0[k2].len() implies memo_view(
                            *memo,
                        )[k2][j2] == (#[trigger] m0[k2][j2]) by {
                            assert(mpre[k2].len() == m0[k2].len());
                            assert(memo_view(*memo)[k2][j2] == mpre[k2][j2]);
                        }
                    }
                    return Err(e);
                },
            },
        };
        proof {
            assert forall|k2: int, j2: int|
                kk <= k2 < m0.len() && 0 <= j2 < m0[k2].len() implies memo_view(*memo)[k2][j2] == (
            #[trigger] m0[k2][j2]) by {
                assert(mpre[k2].len() == m0[k2].len());
                assert(memo_view(*memo)[k2][j2] == mpre[k2][j2]);
            }
        }
        let val_tt = match C::calc_value(data, i, tt) {
            Ok(v) => v,
            Err(e) => {
                proof {
                    assert(cand_val::<Val, Ipt, C>(
                        *data,
                        tt as int,
                        kk as int,
                        i as int,
                    ) is None);
                    lemma_cand_rec_none::<Val, Ipt, C>(
                        *data,
                        tt as int,
                        kk as int,
                        i as int,
                        tt - 2,
                    );
                    assert(cell_rec::<Val, Ipt, C>(*data, tt as int, kk as int) is None);
                }
                return Err(e);
            },
        };
        let eval: Val = max_k_1.2.add_val(&val_tt);
        proof {
            assert(cand_val::<Val, Ipt, C>(*data, tt as int, kk as int, i as int) == Some(
                eval,
            ));
        }
        best = match best {
            None => Some((i, kk, eval)),
            Some(b) => {
                if b.2.le_val(&eval) {
                    Some((i, kk, eval))
                } else {
                    Some(b)
                }
            },
        };
        proof {
            assert(cand_rec::<Val, Ipt, C>(*data, tt as int, kk as int, i as int) == Some(
                cell_view(best->Some_0),
            ));
        }
        i = i + 1;
    }
    match best {
        Some(b) => {
            proof {
                assert(Some(cell_view(b)) == cell_rec::<Val, Ipt, C>(
                    *data,
                    tt as int,
                    kk as int,
                ));
                lemma_memo_valid_update::<Val, Ipt, C>(
                    memo_view(*memo),
                    *data,
                    tt as int,
                    kk as int,
                    cell_view(b),
                );
            }
            let ghost mcur = memo_view(*memo);
            proof {
                lemma_cand_rec_shape::<Val, Ipt, C>(*data, tt as int, kk as int, tt - 2);
                assert(cell_view(b).1 == kk as int);
                assert(b.1 == kk);
                assert(idx_ok(mcur, *t as int, b.1 as int));
            }
            let res = write_memo_cell(t, b, memo);
            proof {
                assert(res is Ok);
                assert(memo_view(*memo)[0] == mcur[0]);
                assert forall|k2: int, j2: int|
                    0 <= k2 < m0.len() && 0 <= j2 < m0[k2].len() && (
                #[trigger] m0[k2][j2]) is Some implies memo_view(*memo)[k2][j2] == m0[k2][j2] by {
                    if k2 == kk as int && j2 == tt - 2 * (kk as int) {
                        assert(m0[k2][j2] == cell_rec::<Val, Ipt, C>(*data, j2 + 2 * k2, k2));
                        assert(j2 + 2 * k2 == tt as int);
                        assert(memo_view(*memo)[k2][j2] == Some(cell_view(b)));
                    } else {
                        assert(memo_view(*memo)[k2][j2] == mcur[k2][j2]);
                    }
                }
                assert forall|k2: int, j2: int|
                    0 <= k2 < m0.len() && 0 <= j2 < m0[k2].len() && k2 > kk as int implies
                memo_view(*memo)[k2][j2] == m0[k2][j2] by {
                    assert(memo_view(*memo)[k2] == mcur[k2]);
                    assert(mcur[k2][j2] == m0[k2][j2]);
                }
                assert forall|j2: int|
                    0 <= j2 < m0[kk as int].len() && j2 != tt - 2 * (kk as int) implies memo_view(
                    *memo,
                )[kk as int][j2] == m0[kk as int][j2] by {
                    assert(memo_view(*memo)[kk as int][j2] == mcur[kk as int][j2]);
                    assert(mcur[kk as int][j2] == m0[kk as int][j2]);
                }
            }
            res
        },
        None => Err(
            CalcDpError { message: "Failed to compute dynamic programming memo.".to_owned() },
        ),
    }
}

} // verus!

verus! {

/// Allocates the jagged all-unfilled memo for `t_max` and runs the
/// recursive fill rooted at `(t_max, k)` for every `k` up to the maximum
/// (the engine behind `CalcDP::calc_memo_all`).
fn build_full_memo<Val: ValOps, Ipt, C: CalcTT<Val, Ipt>>(data: &Ipt, t_max: Tau) -> (r: Result<
    Vec<Vec<Option<(Tau, NumChg, Val)>>>,
    CalcDpError,
>)
    requires
        1 <= t_max < usize::MAX,
    ensures
        match r {
            Ok(memo) => {
                &&& memo_valid::<Val, Ipt, C>(memo_view(memo), *data)
                &&& t_max_of(memo_view(memo)) == t_max
                &&& forall|k: int|
                    0 <= k <= spec_max_k(t_max as int) ==> (#[trigger] memo_view(memo)[k][t_max - 2
                        * k]) is Some && memo_view(memo)[k][t_max - 2 * k] == cell_rec::<
                        Val,
                        Ipt,
                        C,
                    >(*data, t_max as int, k)
            },
            Err(_) => exists|k: int|
                0 <= k <= spec_max_k(t_max as int) && cell_rec::<Val, Ipt, C>(
                    *data,
                    t_max as int,
                    k,
                ) is None,
        },
{
    let k_max = (t_max - 1) / 2;
    let mut memo: Vec<Vec<Option<(Tau, NumChg, Val)>>> = Vec::new();
    let mut ki: usize = 0;
    while ki <= k_max
        invariant
            k_max == spec_max_k(t_max as int),
            1 <= t_max < usize::MAX,
            0 <= ki <= k_max + 1,
            memo@.len() == ki,
            forall|k3: int| 0 <= k3 < ki ==> #[trigger] memo@[k3]@.len() == t_max + 1 - 2 * k3,
            forall|k3: int, j3: int|
                0 <= k3 < ki && 0 <= j3 < memo@[k3]@.len() ==> (#[trigger] memo@[k3]@[j3]) is None,
        decreases k_max + 1 - ki,
    {
        proof {
            assert(2 * (ki as int) <= 2 * spec_max_k(t_max as int) <= t_max - 1);
        }
        let n = t_max - 2 * ki + 1;
        let mut row: Vec<Option<(Tau, NumChg, Val)>> = Vec::new();
        let mut j: usize = 0;
        while j < n
            invariant
                0 <= j <= n,
                row@.len() == j,
                forall|j3: int| 0 <= j3 < j ==> (#[trigger] row@[j3]) is None,
            decreases n - j,
        {
            row.push(None);
            j = j + 1;
        }
        memo.push(row);
        ki = ki + 1;
    }
    proof {
        let m = memo_view(memo);
        assert(m.len() == memo@.len());
        assert forall|k3: int| 0 <= k3 < m.len() implies #[trigger] m[k3].len() == m[0].len() - 2
            * k3 by {
            assert(m[k3].len() == memo@[k3]@.len());
            assert(m[0].len() == memo@[0]@.len());
        }
        assert(m[0].len() == t_max + 1);
        assert(memo_shaped(m));
        assert forall|k3: int, j3: int|
            0 <= k3 < m.len() && 0 <= j3 < m[k3].len() implies !((#[trigger] m[k3][j3]) is Some) by {
            assert(m[k3][j3] == opt_cell_view(memo@[k3]@[j3]));
        }
        assert(memo_valid::<Val, Ipt, C>(m, *data));
    }
    let mut k2: usize = 0;
    while k2 <= k_max
        invariant
            k_max == spec_max_k(t_max as int),
            1 <= t_max < usize::MAX,
            0 <= k2 <= k_max + 1,
            memo_valid::<Val, Ipt, C>(memo_view(memo), *data),
            t_max_of(memo_view(memo)) == t_max,
            forall|k3: int|
                0 <= k3 < k2 ==> (#[trigger] memo_view(memo)[k3][t_max - 2 * k3]) is Some
                    && memo_view(memo)[k3][t_max - 2 * k3] == cell_rec::<Val, Ipt, C>(
                    *data,
                    t_max as int,
                    k3,
                ),
        decreases k_max + 1 - k2,
    {
        proof {
            assert(idx_ok(memo_view(memo), t_max as int, k2 as int));
        }
        let ghost mpre = memo_view(memo);
        match calc_memo_rec::<Val, Ipt, C>(&t_max, &k2, &mut memo, data) {
            Ok(_) => {
                proof {
                    assert forall|k3: int| 0 <= k3 < k2 + 1 implies (#[trigger] memo_view(
                        memo,
                    )[k3][t_max - 2 * k3]) is Some && memo_view(memo)[k3][t_max - 2 * k3]
                        == cell_rec::<Val, Ipt, C>(*data, t_max as int, k3) by {
                        if k3 < k2 {
                            assert(idx_ok(mpre, t_max as int, k3));
                            lemma_idx_ok_bounds(mpre, t_max as int, k3);
                            assert(mpre[k3][t_max - 2 * k3] is Some);
                            assert(memo_view(memo)[k3][t_max - 2 * k3] == mpre[k3][t_max - 2
                                * k3]);
                        }
                    }
                }
            },
            Err(e) => {
                return Err(e);
            },
        }
        k2 = k2 + 1;
    }
    Ok(memo)
}

} // verus!

verus! {

/// The integer abstraction of an exec history of memo cells.
pub open spec fn hist_view<V>(h: Seq<(Tau, NumChg, V)>) -> Seq<(int, int, V)> {
    h.map_values(|c: (Tau, NumChg, V)| cell_view(c))
}

/// The backtracking chain read out of a memo from the state `(t, k)`:
/// each visited cell in turn, following stored predecessors until the
/// virtual start; `None` when a visited state is out of range, a visited
/// cell is unfilled, or a stored predecessor fails to decrease.
pub open spec fn chain_rec<V>(
    m: Seq<Seq<Option<(int, int, V)>>>,
    t: int,
    k: int,
) -> Option<Seq<(int, int, V)>>
    decreases t,
{
    if t <= 0 {
        Some(Seq::empty())
    } else if !idx_ok(m, t, k) {
        None
    } else {
        match m[k][t - 2 * k] {
            None => None,
            Some(c) => {
                if !(0 <= c.0 < t) {
                    None
                } else {
                    let nk = if c.1 == 0 {
                        k
                    } else {
                        c.1 - 1
                    };
                    match chain_rec(m, c.0, nk) {
                        None => None,
                        Some(rest) => Some(seq![c] + rest),
                    }
                }
            },
        }
    }
}

} // verus!
