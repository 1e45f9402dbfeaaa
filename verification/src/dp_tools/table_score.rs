//! A concrete scorer whose per-segment values come from a lookup table:
//! the dataset is a jagged table of `i64` scores indexed by the two
//! change points of a segment. It serves as the reference instance of the
//! calculation capabilities for hosts that precompute their scores.

use vstd::prelude::*;

use super::CalcDpError;
use super::calc_dp_2::{
    CalcDP, CalcTT, DictTT, DictToFunc, NumChg, Tau, memo_view, sum_cp_spec, table_view,
};

verus! {

/// A dataset for `TableScorer`: `vals[t_k_1][t_k]` is the score of the
/// segment between the change points `t_k_1` and `t_k`; pairs outside the
/// table are domain failures of the evaluator.
pub struct ScoreTable {
    pub vals: Vec<Vec<i64>>,
}

/// The reference scorer over a `ScoreTable` dataset: it carries the
/// built pairwise cache and the memo of the dynamic program.
pub struct TableScorer {
    pub table: Vec<Vec<i64>>,
    pub memo: Vec<Vec<Option<(Tau, NumChg, i64)>>>,
}

/// A value-preserving copy of a jagged table of scores.
fn clone_score_table(t: &Vec<Vec<i64>>) -> (r: Vec<Vec<i64>>)
    ensures
        table_view(r) == table_view(*t),
{
    let mut r: Vec<Vec<i64>> = Vec::new();
    let mut i: usize = 0;
    while i < t.len()
        invariant
            0 <= i <= t@.len(),
            r@.len() == i,
            forall|l: int| 0 <= l < i ==> #[trigger] r@[l]@ == t@[l]@,
        decreases t@.len() - i,
    {
        let src = &t[i];
        let mut row: Vec<i64> = Vec::new();
        let mut j: usize = 0;
        while j < src.len()
            invariant
                0 <= j <= src@.len(),
                row@.len() == j,
                forall|l: int| 0 <= l < j ==> #[trigger] row@[l] == src@[l],
            decreases src@.len() - j,
        {
            row.push(src[j]);
            j = j + 1;
        }
        proof {
            assert(row@ =~= src@);
        }
        r.push(row);
        i = i + 1;
    }
    proof {
        assert(table_view(r) =~~= table_view(*t));
    }
    r
}

/// A value-preserving copy of a memo table.
fn clone_memo_table(m: &Vec<Vec<Option<(Tau, NumChg, i64)>>>) -> (r: Vec<
    Vec<Option<(Tau, NumChg, i64)>>,
>)
    ensures
        memo_view(r) == memo_view(*m),
{
    let mut r: Vec<Vec<Option<(Tau, NumChg, i64)>>> = Vec::new();
    let mut i: usize = 0;
    while i < m.len()
        invariant
            0 <= i <= m@.len(),
            r@.len() == i,
            forall|l: int| 0 <= l < i ==> #[trigger] r@[l]@ == m@[l]@,
        decreases m@.len() - i,
    {
        let src = &m[i];
        let mut row: Vec<Option<(Tau, NumChg, i64)>> = Vec::new();
        let mut j: usize = 0;
        while j < src.len()
            invariant
                0 <= j <= src@.len(),
                row@.len() == j,
                forall|l: int| 0 <= l < j ==> #[trigger] row@[l] == src@[l],
            decreases src@.len() - j,
        {
            row.push(src[j]);
            j = j + 1;
        }
        proof {
            assert(row@ =~= src@);
        }
        r.push(row);
        i = i + 1;
    }
    proof {
        assert(memo_view(r) =~~= memo_view(*m));
    }
    r
}

impl CalcTT<i64, ScoreTable> for TableScorer {
    open spec fn spec_value(data: ScoreTable, t_k_1: int, t_k: int) -> Option<i64> {
        if 0 <= t_k_1 < data.vals@.len() && 0 <= t_k < data.vals@[t_k_1]@.len() {
            Some(data.vals@[t_k_1]@[t_k])
        } else {
            None
        }
    }

    fn calc_value(data: &ScoreTable, t_k_1: Tau, t_k: Tau) -> (r: Result<i64, CalcDpError>) {
        if t_k_1 >= data.vals.len() {
            return Err(
                CalcDpError { message: "No score is stored for this pair.".to_owned() },
            );
        }
        let row = &data.vals[t_k_1];
        if t_k >= row.len() {
            return Err(
                CalcDpError { message: "No score is stored for this pair.".to_owned() },
            );
        }
        Ok(row[t_k])
    }
}

impl DictTT<i64, ScoreTable> for TableScorer {
    open spec fn spec_table(&self) -> Seq<Seq<i64>> {
        table_view(self.table)
    }

    fn value_tt_all(&self) -> (r: Vec<Vec<i64>>) {
        clone_score_table(&self.table)
    }
}

impl DictToFunc<i64, ScoreTable> for TableScorer {
    open spec fn spec_evaluate(&self, change_points: Seq<int>) -> Option<i64> {
        sum_cp_spec(self.spec_table(), change_points)
    }

    /// For this scorer the total is additive, so the custom path is the
    /// cached sum itself.
    fn evaluate(&self, change_points: &Vec<Tau>) -> (r: Result<i64, CalcDpError>) {
        self.sum_frol_cp(change_points)
    }
}

impl CalcDP<i64, ScoreTable> for TableScorer {
    open spec fn spec_memo(&self) -> Seq<Seq<Option<(int, int, i64)>>> {
        memo_view(self.memo)
    }

    fn memo_all(&self) -> (r: Vec<Vec<Option<(Tau, NumChg, i64)>>>) {
        clone_memo_table(&self.memo)
    }
}

} // verus!
