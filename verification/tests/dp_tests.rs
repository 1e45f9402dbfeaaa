use cpd_tools::dp_tools::calc_dp_2::{CalcDP, CalcTT, DictTT, DictToFunc, order_change_point};
use cpd_tools::dp_tools::table_score::{ScoreTable, TableScorer};

/// A square score table of side `n` where every pair scores `v`.
fn constant_table(n: usize, v: i64) -> ScoreTable {
    ScoreTable { vals: vec![vec![v; n]; n] }
}

fn solver_for(data: &ScoreTable, t_max: usize) -> TableScorer {
    let table = TableScorer::calc_value_all(data, &t_max).expect("cache build");
    let memo = TableScorer::calc_memo_all(data, &t_max).expect("memo build");
    TableScorer { table, memo }
}

#[test]
fn order_change_point_basic_pairs() {
    assert!(order_change_point(&0, &1).is_ok());
    assert!(order_change_point(&1, &2).is_err());
    assert!(order_change_point(&1, &3).is_ok());
    assert!(order_change_point(&0, &0).is_err());
    assert!(order_change_point(&1, &0).is_err());
    assert!(order_change_point(&7, &0).is_err());
    assert!(order_change_point(&2, &2).is_err());
    assert!(order_change_point(&3, &5).is_ok());
}

#[test]
fn calc_max_k_values() {
    assert_eq!(<TableScorer as CalcDP<i64, ScoreTable>>::calc_max_k(&5), 2);
    assert_eq!(<TableScorer as CalcDP<i64, ScoreTable>>::calc_max_k(&4), 1);
    assert_eq!(<TableScorer as CalcDP<i64, ScoreTable>>::calc_max_k(&1), 0);
    assert_eq!(<TableScorer as CalcDP<i64, ScoreTable>>::calc_max_k(&2), 0);
}

#[test]
fn cache_matches_direct_evaluation() {
    let t_max: usize = 7;
    let mut vals = Vec::new();
    for p in 0..(t_max + 1) {
        let mut row = Vec::new();
        for c in 0..(t_max + 1) {
            row.push((3 * p + 5 * c) as i64 - 10);
        }
        vals.push(row);
    }
    let data = ScoreTable { vals };
    let table = TableScorer::calc_value_all(&data, &t_max).expect("cache build");
    let cache = TableScorer { table, memo: Vec::new() };
    for p in 0..(t_max - 1) {
        // row 0 covers every segment from the virtual start, the special
        // first pair (0, 1) included
        let start = if p == 0 { 1 } else { p + 2 };
        for c in start..(t_max + 1) {
            let direct = TableScorer::calc_value(&data, p, c).expect("direct");
            let cached = cache.value_tt(p, c).expect("cached");
            assert_eq!(direct, cached);
        }
    }
}

#[test]
fn cache_build_fails_when_evaluator_fails() {
    // a 3x3 table cannot score the pair (0, 4) that T_max = 4 demands
    let data = constant_table(3, 1);
    assert!(TableScorer::calc_value_all(&data, &4).is_err());
}

#[test]
fn dp_matches_brute_force_optimum() {
    let t_max: usize = 6;
    let mut vals = Vec::new();
    for p in 0..(t_max + 1) {
        let mut row = Vec::new();
        for c in 0..(t_max + 1) {
            row.push(((7 * p + 3 * c) % 5) as i64 - 1);
        }
        vals.push(row);
    }
    let data = ScoreTable { vals };
    let solver = solver_for(&data, t_max);
    let seg = |p: usize, c: usize| TableScorer::calc_value(&data, p, c).expect("segment");
    // k = 2: all sequences c1 < c2 < 6 obeying the spacing rule (the
    // first segment alone may have length one)
    let mut best: Option<i64> = None;
    for c1 in 1..t_max {
        for c2 in (c1 + 2)..t_max {
            if t_max >= c2 + 2 {
                let s = seg(0, c1) + seg(c1, c2) + seg(c2, t_max);
                // the cached sum agrees, the special first segment included
                assert_eq!(s, solver.sum_frol_cp(&vec![c1, c2, t_max]).expect("sum"));
                if best.map_or(true, |b| s > b) {
                    best = Some(s);
                }
            }
        }
    }
    let dp = solver.get_value(&t_max, &2).expect("dp value");
    assert_eq!(dp, best.expect("at least one sequence"));
    // k = 1 as well
    let mut best1: Option<i64> = None;
    for c1 in 1..(t_max - 1) {
        let s = seg(0, c1) + seg(c1, t_max);
        if best1.map_or(true, |b| s > b) {
            best1 = Some(s);
        }
    }
    assert_eq!(solver.get_value(&t_max, &1).expect("dp value"), best1.unwrap());
}

#[test]
fn history_decreases_and_sums_to_value() {
    let t_max: usize = 6;
    let data = constant_table(t_max + 1, 1);
    let solver = solver_for(&data, t_max);
    let hist = solver.get_value_history(&t_max, &2).expect("history");
    assert!(hist.len() >= 1);
    // predecessor chain strictly decreases and ends at the virtual start
    for w in hist.windows(2) {
        assert!(w[1].0 < w[0].0);
    }
    assert_eq!(hist.last().unwrap().0, 0);
    // the head carries the queried value
    assert_eq!(hist[0].2, solver.get_value(&t_max, &2).expect("value"));
    // each entry extends the next by one segment that scores 1 here
    for w in hist.windows(2) {
        assert_eq!(w[0].2, w[1].2 + 1);
    }
}

#[test]
fn tie_breaks_to_larger_predecessor() {
    // three tying candidates for (5, 1): predecessors 1, 2 and 3
    let t_max: usize = 5;
    let mut data = constant_table(t_max + 1, 0);
    data.vals[0][1] = 1;
    data.vals[1][5] = 1;
    data.vals[0][2] = 1;
    data.vals[2][5] = 1;
    data.vals[0][3] = 2;
    data.vals[3][5] = 0;
    let solver = solver_for(&data, t_max);
    let hist = solver.get_value_history(&t_max, &1).expect("history");
    assert_eq!(hist[0], (3, 1, 2));
}

#[test]
fn out_of_range_queries_fail() {
    let t_max: usize = 6;
    let data = constant_table(t_max + 1, 1);
    let solver = solver_for(&data, t_max);
    // k exceeding the derived maximum for t
    assert!(solver.get_value(&t_max, &3).is_err());
    assert!(solver.get_value(&7, &1).is_err());
    assert!(solver.get_value(&0, &0).is_err());
    // a lookup beyond the built table's range
    assert!(solver.value_tt(0, 7).is_err());
    assert!(solver.value_tt(5, 7).is_err());
}

#[test]
fn unit_scores_scenario() {
    // every segment scores 1 and T_max = 6: three segments are optimal
    let t_max: usize = 6;
    let data = constant_table(t_max + 1, 1);
    let solver = solver_for(&data, t_max);
    assert_eq!(solver.get_value(&t_max, &2).expect("value"), 3);
    let hist = solver.get_value_history(&t_max, &2).expect("history");
    assert_eq!(hist, vec![(4, 2, 3), (2, 1, 2), (0, 0, 1)]);
    // the reconstructed change points, reversed, are 2, 4, 6
    let mut cps: Vec<usize> = hist.iter().take(hist.len() - 1).map(|c| c.0).collect();
    cps.reverse();
    cps.push(t_max);
    assert_eq!(cps, vec![2, 4, 6]);
    assert_eq!(solver.sum_frol_cp(&cps).expect("sum"), 3);
    assert_eq!(solver.evaluate(&cps).expect("evaluate"), 3);
}

#[test]
fn sum_frol_cp_empty_sequence_is_identity() {
    let t_max: usize = 4;
    let data = constant_table(t_max + 1, 2);
    let solver = solver_for(&data, t_max);
    assert_eq!(solver.sum_frol_cp(&Vec::new()).expect("sum"), 0);
}

#[test]
fn sum_frol_cp_rejects_invalid_sequences() {
    let t_max: usize = 6;
    let data = constant_table(t_max + 1, 1);
    let solver = solver_for(&data, t_max);
    // consecutive points that violate the spacing rule
    assert!(solver.sum_frol_cp(&vec![1, 2]).is_err());
    // a zero inside the sequence
    assert!(solver.sum_frol_cp(&vec![2, 0]).is_err());
}

#[test]
fn memo_accessors_roundtrip() {
    let t_max: usize = 5;
    let data = constant_table(t_max + 1, 1);
    let solver = solver_for(&data, t_max);
    let memo = solver.memo_all();
    // one row per change count, row k shortened by 2k cells
    assert_eq!(memo.len(), 3);
    assert_eq!(memo[0].len(), t_max + 1);
    assert_eq!(memo[1].len(), t_max - 1);
    assert_eq!(memo[2].len(), t_max - 3);
    let table = solver.value_tt_all();
    assert_eq!(table.len(), t_max - 1);
    // row 0 holds t_max entries (t_cur = 1 ..= t_max); row p holds the
    // entries for t_cur = p + 2 ..= t_max
    assert_eq!(table[0].len(), t_max);
    for (p, row) in table.iter().enumerate().skip(1) {
        assert_eq!(row.len(), t_max - p - 1);
    }
}

#[test]
fn memo_cells_roundtrip() {
    let t_max: usize = 5;
    // the shape calc_memo_all allocates: row k holds t_max - 2k + 1 cells
    let mut memo: Vec<Vec<Option<(usize, usize, i64)>>> =
        vec![vec![None; 6], vec![None; 4], vec![None; 2]];
    assert!(TableScorer::check_idx_memo(&0, &0, &memo).is_err());
    assert!(TableScorer::check_idx_memo(&6, &0, &memo).is_err());
    assert!(TableScorer::check_idx_memo(&5, &3, &memo).is_err());
    assert!(TableScorer::check_idx_memo(&5, &2, &memo).is_ok());
    assert_eq!(TableScorer::get_from_memo(&5, &1, &memo).expect("read"), None);
    let written = TableScorer::set_from_memo(&5, (3, 1, 7), &mut memo).expect("write");
    assert_eq!(written, (3, 1, 7));
    assert_eq!(
        TableScorer::get_from_memo(&5, &1, &memo).expect("read"),
        Some((3, 1, 7))
    );
    // a write whose state is out of range is rejected
    assert!(TableScorer::set_from_memo(&5, (3, 3, 7), &mut memo).is_err());
    // the recursive fill computes the same cell the whole build does
    let data = constant_table(t_max + 1, 1);
    let mut fresh: Vec<Vec<Option<(usize, usize, i64)>>> =
        vec![vec![None; 6], vec![None; 4], vec![None; 2]];
    let cell = TableScorer::calc_memo(&5, &2, &mut fresh, &data).expect("fill");
    let solver = solver_for(&data, t_max);
    let hist = solver.get_value_history(&5, &2).expect("history");
    assert_eq!(hist[0], cell);
}

#[test]
fn sentinel_pair_is_cached() {
    let t_max: usize = 6;
    let mut data = constant_table(t_max + 1, 1);
    data.vals[0][1] = 42;
    let table = TableScorer::calc_value_all(&data, &t_max).expect("cache build");
    let cache = TableScorer { table, memo: Vec::new() };
    assert_eq!(cache.value_tt(0, 1).expect("sentinel"), 42);
    assert_eq!(
        cache.value_tt(0, 1).expect("sentinel"),
        TableScorer::calc_value(&data, 0, 1).expect("direct")
    );
    // a sequence whose first segment is the special pair sums through it
    assert_eq!(cache.sum_frol_cp(&vec![1, 3]).expect("sum"), 43);
    // the smallest horizon: the table is the single sentinel entry
    let tiny = TableScorer::calc_value_all(&data, &1).expect("tiny build");
    assert_eq!(tiny.len(), 1);
    assert_eq!(tiny[0].len(), 1);
    let tiny_cache = TableScorer { table: tiny, memo: Vec::new() };
    assert_eq!(tiny_cache.value_tt(0, 1).expect("sentinel"), 42);
}

#[test]
fn evaluator_failure_aborts_memo_build() {
    // pairs reaching time 6 are outside this 6x6 table, so the base
    // segment (0, 6) cannot be scored
    let data = constant_table(6, 1);
    assert!(TableScorer::calc_memo_all(&data, &6).is_err());
}
