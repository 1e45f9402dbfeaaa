//! Laws of the dynamic program: the selected cell dominates every
//! candidate, ties resolve to the largest predecessor, and the value is
//! the maximum over all valid change-point sequences — attained by one.

use vstd::prelude::*;

use super::calc_dp_2::{
    CalcTT, ValOps, cand_rec, cand_val, cell_rec, chain_rec, is_value_table,
    lemma_cand_rec_shape, lemma_cell_rec_shape, lemma_memo_valid_steps_ok,
    lemma_value_tt_matches_calc_value, memo_shaped, memo_steps_ok, memo_valid, order_ok,
    sum_cp_from_spec, sum_cp_spec, value_tt_spec,
};

verus! {

/// The score order compares every two values.
pub open spec fn le_total<V: ValOps>() -> bool {
    forall|a: V, b: V| #[trigger] a.le_spec(b) || #[trigger] b.le_spec(a)
}

/// The score order is transitive.
pub open spec fn le_trans<V: ValOps>() -> bool {
    forall|a: V, b: V, c: V|
        #[trigger] a.le_spec(b) && #[trigger] b.le_spec(c) ==> a.le_spec(c)
}

/// The sum is monotone in its left argument.
pub open spec fn add_mono<V: ValOps>() -> bool {
    forall|a: V, b: V, v: V|
        #[trigger] a.le_spec(b) ==> #[trigger] a.add_spec(v).le_spec(b.add_spec(v))
}

/// The best candidate dominates every candidate it was selected from,
/// and strictly dominates every candidate with a larger predecessor: the
/// scan keeps a later candidate only when it is at least the incumbent.
pub proof fn lemma_cand_rec_max<Val: ValOps, Ipt, C: CalcTT<Val, Ipt>>(
    data: Ipt,
    t: int,
    k: int,
    i: int,
)
    requires
        le_total::<Val>(),
        le_trans::<Val>(),
        k >= 1,
        i >= 2 * k - 1,
    ensures
        cand_rec::<Val, Ipt, C>(data, t, k, i) matches Some(c) ==> forall|j: int|
            2 * k - 1 <= j <= i ==> ((#[trigger] cand_val::<Val, Ipt, C>(
                data,
                t,
                k,
                j,
            )) matches Some(vj) && vj.le_spec(c.2) && (j > c.0 ==> !c.2.le_spec(vj))),
    decreases i,
{
    if cand_rec::<Val, Ipt, C>(data, t, k, i) is Some {
        let c = cand_rec::<Val, Ipt, C>(data, t, k, i)->Some_0;
        let v = cand_val::<Val, Ipt, C>(data, t, k, i)->Some_0;
        if i == 2 * k - 1 {
            assert(v.le_spec(v) || v.le_spec(v));
        } else {
            lemma_cand_rec_max::<Val, Ipt, C>(data, t, k, i - 1);
            let prev = cand_rec::<Val, Ipt, C>(data, t, k, i - 1)->Some_0;
            lemma_cand_rec_shape::<Val, Ipt, C>(data, t, k, i - 1);
            assert forall|j: int| 2 * k - 1 <= j <= i implies ((#[trigger] cand_val::<
                Val,
                Ipt,
                C,
            >(data, t, k, j)) matches Some(vj) && vj.le_spec(c.2) && (j > c.0 ==> !c.2.le_spec(
                vj,
            ))) by {
                let vj = cand_val::<Val, Ipt, C>(data, t, k, j)->Some_0;
                if prev.2.le_spec(v) {
                    // the newest candidate displaced the incumbent
                    assert(c == (i, k, v));
                    if j < i {
                        assert(vj.le_spec(prev.2));
                        assert(vj.le_spec(v));
                    } else {
                        assert(v.le_spec(v) || v.le_spec(v));
                    }
                } else {
                    // the incumbent stays
                    assert(c == prev);
                    assert(v.le_spec(prev.2) || prev.2.le_spec(v));
                    if j == i {
                        assert(vj == v);
                        assert(!c.2.le_spec(vj));
                    }
                }
            }
        }
    }
}

/// Tie-break law: the predecessor the solver stores is at least every
/// predecessor whose candidate ties with the stored value, so among
/// equal-valued candidates the largest predecessor index wins.
pub proof fn lemma_tie_breaks_to_largest<Val: ValOps, Ipt, C: CalcTT<Val, Ipt>>(
    data: Ipt,
    t: int,
    k: int,
    j: int,
)
    requires
        le_total::<Val>(),
        le_trans::<Val>(),
        k >= 1,
        t >= 2 * k + 1,
        2 * k - 1 <= j <= t - 2,
    ensures
        cell_rec::<Val, Ipt, C>(data, t, k) matches Some(c) ==> (cand_val::<Val, Ipt, C>(
            data,
            t,
            k,
            j,
        ) == Some(c.2) ==> c.0 >= j),
{
    if cell_rec::<Val, Ipt, C>(data, t, k) is Some {
        let c = cell_rec::<Val, Ipt, C>(data, t, k)->Some_0;
        lemma_cand_rec_max::<Val, Ipt, C>(data, t, k, t - 2);
        if cand_val::<Val, Ipt, C>(data, t, k, j) == Some(c.2) && c.0 < j {
            assert(!c.2.le_spec(c.2));
            assert(c.2.le_spec(c.2) || c.2.le_spec(c.2));
        }
    }
}

/// Whether `cps` is a valid change-point sequence for the state `(t, k)`:
/// `k + 1` strictly increasing points ending exactly at `t`, each
/// consecutive pair (with the virtual start prefixed) satisfying the
/// ordering invariant.
pub open spec fn valid_cps(cps: Seq<int>, t: int, k: int) -> bool {
    &&& cps.len() == k + 1
    &&& cps[k as int] == t
    &&& forall|j: int|
        0 <= j < cps.len() ==> order_ok(if j == 0 { 0int } else { cps[j - 1] }, #[trigger] cps[j])
}

/// Left fold of the evaluator's scores along the consecutive pairs of a
/// change-point sequence, from accumulator `acc` and previous point
/// `prev`; `None` as soon as one segment fails.
pub open spec fn seg_sum_from<Val: ValOps, Ipt, C: CalcTT<Val, Ipt>>(
    data: Ipt,
    acc: Val,
    prev: int,
    cps: Seq<int>,
) -> Option<Val>
    decreases cps.len(),
{
    if cps.len() == 0 {
        Some(acc)
    } else {
        match C::spec_value(data, prev, cps[0]) {
            None => None,
            Some(v) => seg_sum_from::<Val, Ipt, C>(data, acc.add_spec(v), cps[0], cps.drop_first()),
        }
    }
}

/// Total evaluator score of a change-point sequence, starting from the
/// sum's identity element at the virtual start.
pub open spec fn seg_sum<Val: ValOps, Ipt, C: CalcTT<Val, Ipt>>(data: Ipt, cps: Seq<int>) -> Option<
    Val,
> {
    seg_sum_from::<Val, Ipt, C>(data, Val::zero_spec(), 0, cps)
}

/// Appending one more change point extends the fold by one segment.
pub proof fn lemma_seg_sum_snoc<Val: ValOps, Ipt, C: CalcTT<Val, Ipt>>(
    data: Ipt,
    acc: Val,
    prev: int,
    cps: Seq<int>,
    x: int,
)
    ensures
        seg_sum_from::<Val, Ipt, C>(data, acc, prev, cps.push(x)) == (match seg_sum_from::<
            Val,
            Ipt,
            C,
        >(data, acc, prev, cps) {
            None => None,
            Some(y) => match C::spec_value(
                data,
                if cps.len() == 0 {
                    prev
                } else {
                    cps.last()
                },
                x,
            ) {
                None => None,
                Some(v) => Some(y.add_spec(v)),
            },
        }),
    decreases cps.len(),
{
    if cps.len() == 0 {
        assert(cps.push(x)[0] == x);
        assert(cps.push(x).drop_first() =~= Seq::<int>::empty());
        match C::spec_value(data, prev, x) {
            None => {
                assert(seg_sum_from::<Val, Ipt, C>(data, acc, prev, cps.push(x)) is None);
            },
            Some(v) => {
                assert(seg_sum_from::<Val, Ipt, C>(
                    data,
                    acc.add_spec(v),
                    x,
                    Seq::<int>::empty(),
                ) == Some(acc.add_spec(v)));
                assert(seg_sum_from::<Val, Ipt, C>(data, acc, prev, cps.push(x)) == Some(
                    acc.add_spec(v),
                ));
            },
        }
    } else {
        assert(cps.push(x)[0] == cps[0]);
        assert(cps.push(x).drop_first() =~= cps.drop_first().push(x));
        match C::spec_value(data, prev, cps[0]) {
            None => {
                assert(seg_sum_from::<Val, Ipt, C>(data, acc, prev, cps.push(x)) is None);
                assert(seg_sum_from::<Val, Ipt, C>(data, acc, prev, cps) is None);
            },
            Some(v0) => {
                lemma_seg_sum_snoc::<Val, Ipt, C>(
                    data,
                    acc.add_spec(v0),
                    cps[0],
                    cps.drop_first(),
                    x,
                );
                assert(seg_sum_from::<Val, Ipt, C>(data, acc, prev, cps.push(x))
                    == seg_sum_from::<Val, Ipt, C>(
                    data,
                    acc.add_spec(v0),
                    cps[0],
                    cps.drop_first().push(x),
                ));
                assert(seg_sum_from::<Val, Ipt, C>(data, acc, prev, cps) == seg_sum_from::<
                    Val,
                    Ipt,
                    C,
                >(data, acc.add_spec(v0), cps[0], cps.drop_first()));
                if cps.len() >= 2 {
                    assert(cps.drop_first().last() == cps.last());
                } else {
                    assert(cps.drop_first().len() == 0);
                    assert(cps.last() == cps[0]);
                }
            },
        }
    }
}

/// Every point of a valid sequence sits at least at `2 j + 1`: the
/// spacing rule forces one fresh step plus two per earlier change point.
pub proof fn lemma_valid_cps_low(cps: Seq<int>, t: int, k: int, j: int)
    requires
        valid_cps(cps, t, k),
        0 <= j < cps.len(),
    ensures
        cps[j] >= 2 * j + 1,
    decreases j,
{
    if j == 0 {
        assert(order_ok(0, cps[0]));
    } else {
        lemma_valid_cps_low(cps, t, k, j - 1);
        assert(order_ok(cps[j - 1], cps[j]));
    }
}

/// Upper half of the optimality law: no valid change-point sequence for
/// `(t, k)` scores above the cell the dynamic program computed.
pub proof fn lemma_dp_dominates<Val: ValOps, Ipt, C: CalcTT<Val, Ipt>>(
    data: Ipt,
    t: int,
    k: int,
    cps: Seq<int>,
)
    requires
        le_total::<Val>(),
        le_trans::<Val>(),
        add_mono::<Val>(),
        0 <= k,
        cell_rec::<Val, Ipt, C>(data, t, k) is Some,
        valid_cps(cps, t, k),
    ensures
        (seg_sum::<Val, Ipt, C>(data, cps) matches Some(s) && s.le_spec(
            cell_rec::<Val, Ipt, C>(data, t, k)->Some_0.2,
        )),
    decreases k,
{
    let c = cell_rec::<Val, Ipt, C>(data, t, k)->Some_0;
    if k == 0 {
        assert(cps =~= Seq::empty().push(t));
        assert(C::spec_value(data, 0, t) == Some(c.2));
        lemma_seg_sum_snoc::<Val, Ipt, C>(data, Val::zero_spec(), 0, Seq::empty(), t);
        Val::lemma_zero_add(c.2);
        assert(c.2.le_spec(c.2) || c.2.le_spec(c.2));
    } else {
        let i = cps[k - 1];
        lemma_valid_cps_low(cps, t, k, k - 1);
        assert(order_ok(i, cps[k as int]));
        assert(2 * k - 1 <= i <= t - 2);
        lemma_cell_rec_shape::<Val, Ipt, C>(data, t, k);
        assert(t >= 2 * k + 1);
        lemma_cand_rec_max::<Val, Ipt, C>(data, t, k, t - 2);
        assert(cand_val::<Val, Ipt, C>(data, t, k, i) is Some);
        let ci = cell_rec::<Val, Ipt, C>(data, i, k - 1)->Some_0;
        let vi = C::spec_value(data, i, t)->Some_0;
        let prefix = cps.subrange(0, k as int);
        assert(valid_cps(prefix, i, k - 1)) by {
            assert forall|j: int| 0 <= j < prefix.len() implies order_ok(
                if j == 0 {
                    0int
                } else {
                    prefix[j - 1]
                },
                #[trigger] prefix[j],
            ) by {
                assert(prefix[j] == cps[j]);
            }
        }
        lemma_dp_dominates::<Val, Ipt, C>(data, i, k - 1, prefix);
        let s1 = seg_sum::<Val, Ipt, C>(data, prefix)->Some_0;
        assert(cps =~= prefix.push(t));
        lemma_seg_sum_snoc::<Val, Ipt, C>(data, Val::zero_spec(), 0, prefix, t);
        assert(prefix.last() == i);
        assert(seg_sum::<Val, Ipt, C>(data, cps) == Some(s1.add_spec(vi)));
        assert(s1.add_spec(vi).le_spec(ci.2.add_spec(vi)));
        assert(cand_val::<Val, Ipt, C>(data, t, k, i)->Some_0 == ci.2.add_spec(vi));
        assert(ci.2.add_spec(vi).le_spec(c.2));
        assert(s1.add_spec(vi).le_spec(c.2));
    }
}

/// Lower half of the optimality law: the value the dynamic program
/// computed is attained by some valid change-point sequence for `(t, k)`
/// (the one backtracking reconstructs).
pub proof fn lemma_dp_attained<Val: ValOps, Ipt, C: CalcTT<Val, Ipt>>(data: Ipt, t: int, k: int)
    requires
        0 <= k,
        1 <= t,
        cell_rec::<Val, Ipt, C>(data, t, k) is Some,
    ensures
        exists|cps: Seq<int>|
            #[trigger] valid_cps(cps, t, k) && seg_sum::<Val, Ipt, C>(data, cps) == Some(
                cell_rec::<Val, Ipt, C>(data, t, k)->Some_0.2,
            ),
    decreases k,
{
    let c = cell_rec::<Val, Ipt, C>(data, t, k)->Some_0;
    lemma_cell_rec_shape::<Val, Ipt, C>(data, t, k);
    if k == 0 {
        let cps = Seq::empty().push(t);
        assert(order_ok(0, t));
        assert(valid_cps(cps, t, 0)) by {
            assert(cps[0] == t);
        }
        lemma_seg_sum_snoc::<Val, Ipt, C>(data, Val::zero_spec(), 0, Seq::empty(), t);
        Val::lemma_zero_add(c.2);
        assert(seg_sum::<Val, Ipt, C>(data, cps) == Some(c.2));
    } else {
        let i = c.0;
        assert(cand_val::<Val, Ipt, C>(data, t, k, i) == Some(c.2));
        let ci = cell_rec::<Val, Ipt, C>(data, i, k - 1)->Some_0;
        let vi = C::spec_value(data, i, t)->Some_0;
        lemma_dp_attained::<Val, Ipt, C>(data, i, k - 1);
        let prefix = choose|cps: Seq<int>|
            #[trigger] valid_cps(cps, i, k - 1) && seg_sum::<Val, Ipt, C>(data, cps) == Some(ci.2);
        let cps = prefix.push(t);
        assert(valid_cps(cps, t, k)) by {
            assert(cps[k as int] == t);
            assert(prefix[k - 1] == i);
            assert(order_ok(i, t));
            assert forall|j: int| 0 <= j < cps.len() implies order_ok(
                if j == 0 {
                    0int
                } else {
                    cps[j - 1]
                },
                #[trigger] cps[j],
            ) by {
                if j < k {
                    assert(cps[j] == prefix[j]);
                    assert(order_ok(if j == 0 { 0int } else { prefix[j - 1] }, prefix[j]));
                }
            }
        }
        lemma_seg_sum_snoc::<Val, Ipt, C>(data, Val::zero_spec(), 0, prefix, t);
        assert(prefix.last() == i);
        assert(seg_sum::<Val, Ipt, C>(data, cps) == Some(ci.2.add_spec(vi)));
        assert(ci.2.add_spec(vi) == c.2);
    }
}

} // verus!

verus! {

/// Backtracking law, structural part: a history read out of a
/// structurally sound memo starts at the queried state's cell, strictly
/// decreases in time along stored predecessors, and ends at the virtual
/// start.
pub proof fn lemma_history_structure<V>(
    m: Seq<Seq<Option<(int, int, V)>>>,
    t: int,
    k: int,
    hs: Seq<(int, int, V)>,
)
    requires
        memo_shaped(m),
        memo_steps_ok(m),
        t >= 1,
        chain_rec(m, t, k) == Some(hs),
    ensures
        hs.len() >= 1,
        Some(hs[0]) == m[k][t - 2 * k],
        hs[0].0 < t,
        hs[hs.len() - 1].0 == 0,
        forall|j: int| 0 <= j < hs.len() - 1 ==> (#[trigger] hs[j + 1]).0 < hs[j].0,
    decreases t,
{
    let c = m[k][t - 2 * k]->Some_0;
    assert(c.1 == k && 0 <= c.0 < t);
    let nk = if c.1 == 0 {
        k
    } else {
        c.1 - 1
    };
    let rest = chain_rec(m, c.0, nk)->Some_0;
    assert(hs =~= seq![c] + rest);
    if c.0 == 0 {
        assert(rest =~= Seq::<(int, int, V)>::empty());
        assert(hs.len() == 1);
    } else {
        lemma_history_structure(m, c.0, nk, rest);
        assert(hs[hs.len() - 1] == rest[rest.len() - 1]);
        assert forall|j: int| 0 <= j < hs.len() - 1 implies (#[trigger] hs[j + 1]).0 < hs[j].0 by {
            if j == 0 {
                assert(hs[1] == rest[0]);
                assert(rest[0].0 < c.0);
            } else {
                assert(hs[j] == rest[j - 1]);
                assert(hs[j + 1] == rest[j]);
                assert(rest[(j - 1) + 1].0 < rest[j - 1].0);
            }
        }
    }
}

/// Backtracking law, value part: in a memo whose filled cells agree with
/// the recurrence, the head of a history carries the queried state's
/// optimal value and every entry's value extends the next entry's value
/// by exactly the score of the segment the step crossed.
pub proof fn lemma_history_values<Val: ValOps, Ipt, C: CalcTT<Val, Ipt>>(
    m: Seq<Seq<Option<(int, int, Val)>>>,
    data: Ipt,
    t: int,
    k: int,
    hs: Seq<(int, int, Val)>,
)
    requires
        memo_valid::<Val, Ipt, C>(m, data),
        t >= 1,
        chain_rec(m, t, k) == Some(hs),
    ensures
        hs.len() >= 1,
        Some(hs[0]) == cell_rec::<Val, Ipt, C>(data, t, k),
        forall|j: int|
            0 <= j < hs.len() - 1 ==> (#[trigger] hs[j]).2 == hs[j + 1].2.add_spec(
                C::spec_value(
                    data,
                    hs[j].0,
                    if j == 0 {
                        t
                    } else {
                        hs[j - 1].0
                    },
                )->Some_0,
            ),
    decreases t,
{
    lemma_memo_valid_steps_ok::<Val, Ipt, C>(m, data);
    let c = m[k][t - 2 * k]->Some_0;
    assert(c.1 == k && 0 <= c.0 < t);
    assert(m[k][t - 2 * k] == cell_rec::<Val, Ipt, C>(data, t, k)) by {
        assert((t - 2 * k) + 2 * k == t);
    }
    let nk = if c.1 == 0 {
        k
    } else {
        c.1 - 1
    };
    let rest = chain_rec(m, c.0, nk)->Some_0;
    assert(hs =~= seq![c] + rest);
    if c.0 == 0 {
        assert(rest =~= Seq::<(int, int, Val)>::empty());
        assert(hs.len() == 1);
    } else {
        lemma_history_values::<Val, Ipt, C>(m, data, c.0, nk, rest);
        lemma_cell_rec_shape::<Val, Ipt, C>(data, t, k);
        assert(k >= 1) by {
            if k == 0 {
                assert(c.0 == 0);
            }
        }
        assert(cand_val::<Val, Ipt, C>(data, t, k, c.0) == Some(c.2));
        assert(Some(rest[0]) == cell_rec::<Val, Ipt, C>(data, c.0, k - 1));
        assert forall|j: int| 0 <= j < hs.len() - 1 implies (#[trigger] hs[j]).2 == hs[j
            + 1].2.add_spec(
            C::spec_value(
                data,
                hs[j].0,
                if j == 0 {
                    t
                } else {
                    hs[j - 1].0
                },
            )->Some_0,
        ) by {
            if j == 0 {
                assert(hs[0] == c);
                assert(hs[1] == rest[0]);
                assert(c.2 == rest[0].2.add_spec(C::spec_value(data, c.0, t)->Some_0));
            } else {
                assert(hs[j] == rest[j - 1]);
                assert(hs[j + 1] == rest[j]);
                if j == 1 {
                    assert(hs[j - 1].0 == c.0);
                } else {
                    assert(hs[j - 1] == rest[j - 2]);
                }
            }
        }
    }
}

} // verus!

verus! {

/// Appending one more change point extends the cached-table fold by one
/// looked-up segment.
pub proof fn lemma_sum_cp_snoc<V: ValOps>(
    tab: Seq<Seq<V>>,
    acc: V,
    prev: int,
    cps: Seq<int>,
    x: int,
)
    ensures
        sum_cp_from_spec(tab, acc, prev, cps.push(x)) == (match sum_cp_from_spec(
            tab,
            acc,
            prev,
            cps,
        ) {
            None => None,
            Some(y) => match value_tt_spec(
                tab,
                if cps.len() == 0 {
                    prev
                } else {
                    cps.last()
                },
                x,
            ) {
                None => None,
                Some(v) => Some(y.add_spec(v)),
            },
        }),
    decreases cps.len(),
{
    if cps.len() == 0 {
        assert(cps.push(x)[0] == x);
        assert(cps.push(x).drop_first() =~= Seq::<int>::empty());
        match value_tt_spec(tab, prev, x) {
            None => {
                assert(sum_cp_from_spec(tab, acc, prev, cps.push(x)) is None);
            },
            Some(v) => {
                assert(sum_cp_from_spec(tab, acc.add_spec(v), x, Seq::<int>::empty()) == Some(
                    acc.add_spec(v),
                ));
                assert(sum_cp_from_spec(tab, acc, prev, cps.push(x)) == Some(acc.add_spec(v)));
            },
        }
    } else {
        assert(cps.push(x)[0] == cps[0]);
        assert(cps.push(x).drop_first() =~= cps.drop_first().push(x));
        match value_tt_spec(tab, prev, cps[0]) {
            None => {
                assert(sum_cp_from_spec(tab, acc, prev, cps.push(x)) is None);
                assert(sum_cp_from_spec(tab, acc, prev, cps) is None);
            },
            Some(v0) => {
                lemma_sum_cp_snoc(tab, acc.add_spec(v0), cps[0], cps.drop_first(), x);
                assert(sum_cp_from_spec(tab, acc, prev, cps.push(x)) == sum_cp_from_spec(
                    tab,
                    acc.add_spec(v0),
                    cps[0],
                    cps.drop_first().push(x),
                ));
                assert(sum_cp_from_spec(tab, acc, prev, cps) == sum_cp_from_spec(
                    tab,
                    acc.add_spec(v0),
                    cps[0],
                    cps.drop_first(),
                ));
                if cps.len() >= 2 {
                    assert(cps.drop_first().last() == cps.last());
                } else {
                    assert(cps.drop_first().len() == 0);
                    assert(cps.last() == cps[0]);
                }
            },
        }
    }
}

/// On a completely built table, the cached total of any valid sequence
/// equals the direct evaluator total — the sequence-level form of the
/// cache being a pure memoization (row 0 covers the segments from the
/// virtual start, the special first pair included).
pub proof fn lemma_cached_sum_matches_seg_sum<Val: ValOps, Ipt, C: CalcTT<Val, Ipt>>(
    tab: Seq<Seq<Val>>,
    data: Ipt,
    t_max: int,
    cps: Seq<int>,
    t: int,
    k: int,
)
    requires
        is_value_table::<Val, Ipt, C>(tab, data, t_max),
        valid_cps(cps, t, k),
        0 <= k,
        t <= t_max,
    ensures
        sum_cp_spec(tab, cps) == seg_sum::<Val, Ipt, C>(data, cps),
    decreases k,
{
    if k == 0 {
        assert(cps =~= Seq::empty().push(t));
        assert(order_ok(0, t));
        lemma_value_tt_matches_calc_value::<Val, Ipt, C>(tab, data, t_max, 0, t);
        lemma_sum_cp_snoc(tab, Val::zero_spec(), 0, Seq::empty(), t);
        lemma_seg_sum_snoc::<Val, Ipt, C>(data, Val::zero_spec(), 0, Seq::empty(), t);
        assert(C::spec_value(data, 0, t) == Some(tab[0][t - 1]));
    } else {
        let i = cps[k - 1];
        lemma_valid_cps_low(cps, t, k, k - 1);
        assert(order_ok(i, cps[k as int]));
        assert(1 <= i <= t - 2);
        let prefix = cps.subrange(0, k as int);
        assert(valid_cps(prefix, i, k - 1)) by {
            assert forall|j: int| 0 <= j < prefix.len() implies order_ok(
                if j == 0 {
                    0int
                } else {
                    prefix[j - 1]
                },
                #[trigger] prefix[j],
            ) by {
                assert(prefix[j] == cps[j]);
            }
        }
        assert(prefix[0] == cps[0]);
        lemma_cached_sum_matches_seg_sum::<Val, Ipt, C>(tab, data, t_max, prefix, i, k - 1);
        assert(cps =~= prefix.push(t));
        lemma_sum_cp_snoc(tab, Val::zero_spec(), 0, prefix, t);
        lemma_seg_sum_snoc::<Val, Ipt, C>(data, Val::zero_spec(), 0, prefix, t);
        assert(prefix.last() == i);
        lemma_value_tt_matches_calc_value::<Val, Ipt, C>(tab, data, t_max, i, t);
    }
}

} // verus!

verus! {

/// Optimality over cached totals: on a completely built table, no valid
/// change-point sequence has a cached total above the value the dynamic
/// program computed for `(t, k)` — and by `lemma_dp_attained` that value
/// is itself attained.
pub proof fn lemma_dp_dominates_cached_sums<Val: ValOps, Ipt, C: CalcTT<Val, Ipt>>(
    tab: Seq<Seq<Val>>,
    data: Ipt,
    t_max: int,
    cps: Seq<int>,
    t: int,
    k: int,
)
    requires
        le_total::<Val>(),
        le_trans::<Val>(),
        add_mono::<Val>(),
        is_value_table::<Val, Ipt, C>(tab, data, t_max),
        cell_rec::<Val, Ipt, C>(data, t, k) is Some,
        valid_cps(cps, t, k),
        0 <= k,
        t <= t_max,
    ensures
        (sum_cp_spec(tab, cps) matches Some(s) && s.le_spec(
            cell_rec::<Val, Ipt, C>(data, t, k)->Some_0.2,
        )),
{
    lemma_cached_sum_matches_seg_sum::<Val, Ipt, C>(tab, data, t_max, cps, t, k);
    lemma_dp_dominates::<Val, Ipt, C>(data, t, k, cps);
}

} // verus!
