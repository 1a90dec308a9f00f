use vstd::prelude::*;

use crate::max_i;
use crate::traffic_gen::Parameters;

verus! {

/// Label of lane A in a merge order.
pub const LANE_A: usize = 0;

/// Label of lane B in a merge order.
pub const LANE_B: usize = 1;

pub open spec fn valid_label(l: usize) -> bool {
    l == LANE_A || l == LANE_B
}

/// The headway that must separate a merge from the one before it:
/// `w_e` when both come from the same lane, `w_p` otherwise.
pub open spec fn gap(para: Parameters, same: bool) -> u64 {
    if same {
        para.w_e
    } else {
        para.w_p
    }
}

/// The larger of the two headways.
pub open spec fn wmax(para: Parameters) -> u64 {
    if para.w_e >= para.w_p {
        para.w_e
    } else {
        para.w_p
    }
}

/// How many labels of `o` equal `lane`.
pub open spec fn cnt(o: Seq<usize>, lane: usize) -> nat
    decreases o.len(),
{
    if o.len() == 0 {
        0
    } else {
        (if o[0] == lane {
            1nat
        } else {
            0nat
        }) + cnt(o.skip(1), lane)
    }
}

/// A merge order for `alpha` lane-A vehicles and `beta` lane-B vehicles:
/// a sequence of lane labels with exactly those many occurrences of each.
pub open spec fn valid_order(o: Seq<usize>, alpha: nat, beta: nat) -> bool {
    &&& forall|k: int| 0 <= k < o.len() ==> valid_label(#[trigger] o[k])
    &&& cnt(o, LANE_A) == alpha
    &&& cnt(o, LANE_B) == beta
}

/// Forward simulation of a merge order (the remaining suffix `o`), given
/// that `i` lane-A and `j` lane-B vehicles have already merged, the previous
/// merge came from lane `pl`, and it entered at time `tp`.  Yields every
/// entering time, in merge order.
pub open spec fn sim_times(
    o: Seq<usize>,
    a: Seq<u64>,
    b: Seq<u64>,
    para: Parameters,
    i: nat,
    j: nat,
    pl: usize,
    tp: int,
) -> Seq<int>
    decreases o.len(),
{
    if o.len() == 0 {
        Seq::empty()
    } else {
        let l = o[0];
        let arr: int = if l == LANE_A {
            a[i as int] as int
        } else {
            b[j as int] as int
        };
        let t = max_i(arr, tp + gap(para, pl == l));
        let i2 = if l == LANE_A {
            i + 1
        } else {
            i
        };
        let j2 = if l == LANE_A {
            j
        } else {
            j + 1
        };
        seq![t] + sim_times(o.skip(1), a, b, para, i2, j2, l, t)
    }
}

/// The entering times that the simulation assigns to the vehicles of one
/// lane, in vehicle (index) order.
pub open spec fn lane_times(
    o: Seq<usize>,
    a: Seq<u64>,
    b: Seq<u64>,
    para: Parameters,
    i: nat,
    j: nat,
    pl: usize,
    tp: int,
    lane: usize,
) -> Seq<int>
    decreases o.len(),
{
    if o.len() == 0 {
        Seq::empty()
    } else {
        let l = o[0];
        let arr: int = if l == LANE_A {
            a[i as int] as int
        } else {
            b[j as int] as int
        };
        let t = max_i(arr, tp + gap(para, pl == l));
        let i2 = if l == LANE_A {
            i + 1
        } else {
            i
        };
        let j2 = if l == LANE_A {
            j
        } else {
            j + 1
        };
        let rest = lane_times(o.skip(1), a, b, para, i2, j2, l, t, lane);
        if l == lane {
            seq![t] + rest
        } else {
            rest
        }
    }
}

/// The virtual time of a merge "before the first one": far enough in the
/// past that no headway constrains the first merge.
pub open spec fn start_tp(para: Parameters) -> int {
    -(wmax(para) as int)
}

/// Entering times of lane `lane` under merge order `o`, starting from rest.
pub open spec fn sched_times(
    o: Seq<usize>,
    a: Seq<u64>,
    b: Seq<u64>,
    para: Parameters,
    lane: usize,
) -> Seq<int> {
    lane_times(o, a, b, para, 0, 0, LANE_A, start_tp(para), lane)
}

/// All entering times under merge order `o`, in merge order.
pub open spec fn merged_times(o: Seq<usize>, a: Seq<u64>, b: Seq<u64>, para: Parameters) -> Seq<
    int,
> {
    sim_times(o, a, b, para, 0, 0, LANE_A, start_tp(para))
}

/// A time series as mathematical integers.
pub open spec fn as_ints(s: Seq<u64>) -> Seq<int> {
    s.map_values(|x: u64| x as int)
}

/// Largest element of a time series, or 0 when it is empty.
pub open spec fn max_elem(s: Seq<u64>) -> int
    decreases s.len(),
{
    if s.len() == 0 {
        0
    } else {
        max_i(s[0] as int, max_elem(s.skip(1)))
    }
}

/// Last element of a time sequence, or 0 when it is empty.
pub open spec fn last_or0(s: Seq<int>) -> int {
    if s.len() == 0 {
        0
    } else {
        s[s.len() - 1]
    }
}

/// Every entering time the schedulers compute stays representable: the
/// largest arrival plus one headway per merge, with room for the
/// dynamic-programming sentinel, fits in a `u64`.
pub open spec fn fits(a: Seq<u64>, b: Seq<u64>, para: Parameters) -> bool {
    max_i(max_elem(a), max_elem(b)) + (a.len() + b.len() + 4) * wmax(para) <= u64::MAX
}

// ------------------------------------------------------------------
// Counting lemmas
// ------------------------------------------------------------------

pub proof fn lemma_skip_skip<T>(o: Seq<T>, k: int)
    requires
        0 <= k < o.len(),
    ensures
        o.skip(k).skip(1) == o.skip(k + 1),
        o.skip(k).len() == o.len() - k,
        o.skip(k)[0] == o[k],
{
    assert(o.skip(k).skip(1) =~= o.skip(k + 1));
}


pub proof fn lemma_cnt_total(o: Seq<usize>)
    requires
        forall|k: int| 0 <= k < o.len() ==> valid_label(#[trigger] o[k]),
    ensures
        cnt(o, LANE_A) + cnt(o, LANE_B) == o.len(),
    decreases o.len(),
{
    if o.len() > 0 {
        assert(forall|k: int|
            0 <= k < o.skip(1).len() ==> valid_label(#[trigger] o.skip(1)[k]));
        lemma_cnt_total(o.skip(1));
    }
}

pub proof fn lemma_cnt_split(o: Seq<usize>, lane: usize, k: int)
    requires
        0 <= k <= o.len(),
    ensures
        cnt(o, lane) == cnt(o.take(k), lane) + cnt(o.skip(k), lane),
    decreases k,
{
    if k == 0 {
        assert(o.take(0) =~= Seq::<usize>::empty());
        assert(o.skip(0) =~= o);
    } else {
        lemma_cnt_split(o, lane, k - 1);
        // cnt(o.take(k)) == cnt(o.take(k - 1)) + (o[k-1] == lane)
        lemma_cnt_take_succ(o, lane, k - 1);
        lemma_skip_skip(o, k - 1);
        assert(cnt(o.skip(k - 1), lane) == (if o[k - 1] == lane {
            1nat
        } else {
            0nat
        }) + cnt(o.skip(k), lane));
    }
}

pub proof fn lemma_cnt_take_succ(o: Seq<usize>, lane: usize, k: int)
    requires
        0 <= k < o.len(),
    ensures
        cnt(o.take(k + 1), lane) == cnt(o.take(k), lane) + (if o[k] == lane {
            1nat
        } else {
            0nat
        }),
    decreases k,
{
    if k == 0 {
        assert(o.take(1) =~= seq![o[0]]);
        assert(o.take(0) =~= Seq::<usize>::empty());
        assert(cnt(seq![o[0]], lane) == (if o[0] == lane {
            1nat
        } else {
            0nat
        }) + cnt(seq![o[0]].skip(1), lane));
        assert(seq![o[0]].skip(1) =~= Seq::<usize>::empty());
    } else {
        let p = o.take(k + 1);
        let q = o.take(k);
        assert(p[0] == o[0] && q[0] == o[0]);
        assert(p.skip(1) =~= o.skip(1).take(k));
        assert(q.skip(1) =~= o.skip(1).take(k - 1));
        lemma_cnt_take_succ(o.skip(1), lane, k - 1);
        assert(o.skip(1)[k - 1] == o[k]);
    }
}

pub proof fn lemma_cnt_all_same(o: Seq<usize>, lane: usize)
    requires
        forall|k: int| 0 <= k < o.len() ==> valid_label(#[trigger] o[k]),
        valid_label(lane),
        cnt(o, if lane == LANE_A {
            LANE_B
        } else {
            LANE_A
        }) == 0,
    ensures
        forall|k: int| 0 <= k < o.len() ==> o[k] == lane,
    decreases o.len(),
{
    if o.len() > 0 {
        let other: usize = if lane == LANE_A {
            LANE_B
        } else {
            LANE_A
        };
        assert(o[0] != other);
        assert(forall|k: int|
            0 <= k < o.skip(1).len() ==> valid_label(#[trigger] o.skip(1)[k]));
        lemma_cnt_all_same(o.skip(1), lane);
        assert(forall|k: int| 1 <= k < o.len() ==> o[k] == o.skip(1)[k - 1]);
    }
}

/// The earliest-arrival time of the vehicle merging at position `k` of `o`,
/// when `i` / `j` vehicles of each lane merged before the suffix `o` began.
pub open spec fn arr_pos(
    o: Seq<usize>,
    a: Seq<u64>,
    b: Seq<u64>,
    i: nat,
    j: nat,
    k: int,
) -> int {
    if o[k] == LANE_A {
        a[(i + cnt(o.take(k), LANE_A)) as int] as int
    } else {
        b[(j + cnt(o.take(k), LANE_B)) as int] as int
    }
}

pub proof fn lemma_mul_dist(k: int, w: int)
    ensures
        (k + 1) * w == k * w + w,
{
    assert((k + 1) * w == k * w + w) by (nonlinear_arith);
}

pub proof fn lemma_mul_le(x: int, y: int, w: int)
    requires
        x <= y,
        w >= 0,
    ensures
        x * w <= y * w,
{
    assert(x * w <= y * w) by (nonlinear_arith)
        requires
            x <= y,
            w >= 0,
    ;
}

pub proof fn lemma_max_elem_bound(s: Seq<u64>)
    ensures
        max_elem(s) >= 0,
        forall|k: int| 0 <= k < s.len() ==> s[k] <= max_elem(s),
    decreases s.len(),
{
    if s.len() > 0 {
        lemma_max_elem_bound(s.skip(1));
        assert(forall|k: int| 1 <= k < s.len() ==> s[k] == s.skip(1)[k - 1]);
    }
}

} // verus!

verus! {

// ------------------------------------------------------------------
// Simulation lemmas
// ------------------------------------------------------------------

/// Positional characterization of the simulated entering times: each is
/// exactly the maximum of the vehicle's own arrival and the previous
/// entering time plus the separating headway.
pub proof fn lemma_sim_shape(
    o: Seq<usize>,
    a: Seq<u64>,
    b: Seq<u64>,
    para: Parameters,
    i: nat,
    j: nat,
    pl: usize,
    tp: int,
)
    requires
        forall|k: int| 0 <= k < o.len() ==> valid_label(#[trigger] o[k]),
    ensures
        sim_times(o, a, b, para, i, j, pl, tp).len() == o.len(),
        forall|k: int|
            0 <= k < o.len() ==> #[trigger] sim_times(o, a, b, para, i, j, pl, tp)[k] == max_i(
                arr_pos(o, a, b, i, j, k),
                (if k == 0 {
                    tp
                } else {
                    sim_times(o, a, b, para, i, j, pl, tp)[k - 1]
                }) + gap(
                    para,
                    (if k == 0 {
                        pl
                    } else {
                        o[k - 1]
                    }) == o[k],
                ),
            ),
    decreases o.len(),
{
    if o.len() > 0 {
        let l = o[0];
        let arr: int = if l == LANE_A {
            a[i as int] as int
        } else {
            b[j as int] as int
        };
        let t = max_i(arr, tp + gap(para, pl == l));
        let i2: nat = if l == LANE_A {
            i + 1
        } else {
            i
        };
        let j2: nat = if l == LANE_A {
            j
        } else {
            j + 1
        };
        let s = sim_times(o, a, b, para, i, j, pl, tp);
        let rest = sim_times(o.skip(1), a, b, para, i2, j2, l, t);
        assert(forall|k: int|
            0 <= k < o.skip(1).len() ==> valid_label(#[trigger] o.skip(1)[k]));
        lemma_sim_shape(o.skip(1), a, b, para, i2, j2, l, t);
        assert(o.take(0) =~= Seq::<usize>::empty());
        assert(arr_pos(o, a, b, i, j, 0) == arr);
        assert(s[0] == t);
        assert forall|k: int| 1 <= k < o.len() implies #[trigger] s[k] == max_i(
            arr_pos(o, a, b, i, j, k),
            (if k == 0 {
                tp
            } else {
                s[k - 1]
            }) + gap(
                para,
                (if k == 0 {
                    pl
                } else {
                    o[k - 1]
                }) == o[k],
            ),
        ) by {
            assert(s[k] == rest[k - 1]);
            // relate arr_pos on the suffix to arr_pos on o
            assert(o.skip(1).take(k - 1) =~= o.take(k).skip(1));
            assert(o.take(k).len() == k);
            assert(o.take(k)[0] == o[0]);
            assert(cnt(o.take(k), LANE_A) == (if o[0] == LANE_A {
                1nat
            } else {
                0nat
            }) + cnt(o.take(k).skip(1), LANE_A));
            assert(cnt(o.take(k), LANE_B) == (if o[0] == LANE_B {
                1nat
            } else {
                0nat
            }) + cnt(o.take(k).skip(1), LANE_B));
            assert(o.skip(1)[k - 1] == o[k]);
            assert(cnt(o.skip(1).take(k - 1), LANE_A) == cnt(o.take(k).skip(1), LANE_A));
            assert(cnt(o.skip(1).take(k - 1), LANE_B) == cnt(o.take(k).skip(1), LANE_B));
            assert(i2 + cnt(o.skip(1).take(k - 1), LANE_A) == i + cnt(o.take(k), LANE_A));
            assert(j2 + cnt(o.skip(1).take(k - 1), LANE_B) == j + cnt(o.take(k), LANE_B));
            assert(arr_pos(o.skip(1), a, b, i2, j2, k - 1) == arr_pos(o, a, b, i, j, k));
            if k == 1 {
                assert(rest[0] == max_i(
                    arr_pos(o.skip(1), a, b, i2, j2, 0),
                    t + gap(para, l == o.skip(1)[0]),
                ));
            } else {
                assert(rest[k - 1] == max_i(
                    arr_pos(o.skip(1), a, b, i2, j2, k - 1),
                    rest[k - 2] + gap(para, o.skip(1)[k - 2] == o.skip(1)[k - 1]),
                ));
                assert(s[k - 1] == rest[k - 2]);
            }
        }
    }
}

/// Every simulated entering time lies strictly after the time that came
/// before the suffix began (headways are strictly positive).
pub proof fn lemma_lane_lower(
    o: Seq<usize>,
    a: Seq<u64>,
    b: Seq<u64>,
    para: Parameters,
    i: nat,
    j: nat,
    pl: usize,
    tp: int,
    lane: usize,
)
    requires
        para.valid(),
    ensures
        forall|k: int|
            0 <= k < lane_times(o, a, b, para, i, j, pl, tp, lane).len() ==> #[trigger] lane_times(
                o,
                a,
                b,
                para,
                i,
                j,
                pl,
                tp,
                lane,
            )[k] > tp,
    decreases o.len(),
{
    if o.len() > 0 {
        let l = o[0];
        let arr: int = if l == LANE_A {
            a[i as int] as int
        } else {
            b[j as int] as int
        };
        let t = max_i(arr, tp + gap(para, pl == l));
        let i2: nat = if l == LANE_A {
            i + 1
        } else {
            i
        };
        let j2: nat = if l == LANE_A {
            j
        } else {
            j + 1
        };
        assert(t >= tp + gap(para, pl == l));
        assert(gap(para, pl == l) >= 1);
        lemma_lane_lower(o.skip(1), a, b, para, i2, j2, l, t, lane);
        let s = lane_times(o, a, b, para, i, j, pl, tp, lane);
        let rest = lane_times(o.skip(1), a, b, para, i2, j2, l, t, lane);
        assert forall|k: int| 0 <= k < s.len() implies #[trigger] s[k] > tp by {
            if l == lane {
                assert(s == seq![t] + rest);
                if k == 0 {
                    assert(s[0] == t);
                } else {
                    assert(s[k] == rest[k - 1]);
                    assert(rest[k - 1] > t);
                }
            } else {
                assert(s == rest);
                assert(rest[k] > t);
            }
        }
    }
}


/// No vehicle enters before it arrives.
pub proof fn lemma_lane_ge_arrival(
    o: Seq<usize>,
    a: Seq<u64>,
    b: Seq<u64>,
    para: Parameters,
    i: nat,
    j: nat,
    pl: usize,
    tp: int,
)
    requires
        forall|k: int| 0 <= k < o.len() ==> valid_label(#[trigger] o[k]),
    ensures
        forall|k: int|
            0 <= k < lane_times(o, a, b, para, i, j, pl, tp, LANE_A).len()
                ==> #[trigger] lane_times(o, a, b, para, i, j, pl, tp, LANE_A)[k] >= a[i + k],
        forall|k: int|
            0 <= k < lane_times(o, a, b, para, i, j, pl, tp, LANE_B).len()
                ==> #[trigger] lane_times(o, a, b, para, i, j, pl, tp, LANE_B)[k] >= b[j + k],
    decreases o.len(),
{
    if o.len() > 0 {
        let l = o[0];
        let arr: int = if l == LANE_A {
            a[i as int] as int
        } else {
            b[j as int] as int
        };
        let t = max_i(arr, tp + gap(para, pl == l));
        let i2: nat = if l == LANE_A {
            i + 1
        } else {
            i
        };
        let j2: nat = if l == LANE_A {
            j
        } else {
            j + 1
        };
        assert(forall|k: int|
            0 <= k < o.skip(1).len() ==> valid_label(#[trigger] o.skip(1)[k]));
        lemma_lane_ge_arrival(o.skip(1), a, b, para, i2, j2, l, t);
        let sa = lane_times(o, a, b, para, i, j, pl, tp, LANE_A);
        let ra = lane_times(o.skip(1), a, b, para, i2, j2, l, t, LANE_A);
        let sb = lane_times(o, a, b, para, i, j, pl, tp, LANE_B);
        let rb = lane_times(o.skip(1), a, b, para, i2, j2, l, t, LANE_B);
        assert forall|k: int| 0 <= k < sa.len() implies #[trigger] sa[k] >= a[i + k] by {
            if l == LANE_A {
                assert(sa == seq![t] + ra);
                if k == 0 {
                    assert(sa[0] == t && t >= arr);
                } else {
                    assert(sa[k] == ra[k - 1]);
                    assert(ra[k - 1] >= a[i2 + (k - 1)]);
                }
            } else {
                assert(sa == ra);
                assert(ra[k] >= a[i2 + k]);
            }
        }
        assert forall|k: int| 0 <= k < sb.len() implies #[trigger] sb[k] >= b[j + k] by {
            if l == LANE_B {
                assert(sb == seq![t] + rb);
                if k == 0 {
                    assert(sb[0] == t && t >= arr);
                } else {
                    assert(sb[k] == rb[k - 1]);
                    assert(rb[k - 1] >= b[j2 + (k - 1)]);
                }
            } else {
                assert(sb == rb);
                assert(rb[k] >= b[j2 + k]);
            }
        }
    }
}

/// Each lane receives exactly as many entering times as the order names
/// vehicles of that lane.
pub proof fn lemma_lane_len(
    o: Seq<usize>,
    a: Seq<u64>,
    b: Seq<u64>,
    para: Parameters,
    i: nat,
    j: nat,
    pl: usize,
    tp: int,
    lane: usize,
)
    ensures
        lane_times(o, a, b, para, i, j, pl, tp, lane).len() == cnt(o, lane),
    decreases o.len(),
{
    if o.len() > 0 {
        let l = o[0];
        let arr: int = if l == LANE_A {
            a[i as int] as int
        } else {
            b[j as int] as int
        };
        let t = max_i(arr, tp + gap(para, pl == l));
        let i2: nat = if l == LANE_A {
            i + 1
        } else {
            i
        };
        let j2: nat = if l == LANE_A {
            j
        } else {
            j + 1
        };
        lemma_lane_len(o.skip(1), a, b, para, i2, j2, l, t, lane);
    }
}

} // verus!

verus! {

/// The order in which a first-come-first-served policy admits the vehicles:
/// always the lane whose next vehicle arrived first, lane A on ties.
pub open spec fn greedy_order(a: Seq<u64>, b: Seq<u64>) -> Seq<usize>
    decreases a.len() + b.len(),
{
    if a.len() == 0 && b.len() == 0 {
        Seq::empty()
    } else if b.len() == 0 {
        seq![LANE_A] + greedy_order(a.skip(1), b)
    } else if a.len() == 0 {
        seq![LANE_B] + greedy_order(a, b.skip(1))
    } else if a[0] <= b[0] {
        seq![LANE_A] + greedy_order(a.skip(1), b)
    } else {
        seq![LANE_B] + greedy_order(a, b.skip(1))
    }
}

/// The merge order read back from two per-lane entering-time sequences:
/// the earlier head goes first, lane A on ties, as a stable sort of all
/// (time, lane) pairs would order them.
pub open spec fn merge_order_spec(ta: Seq<int>, tb: Seq<int>) -> Seq<usize>
    decreases ta.len() + tb.len(),
{
    if ta.len() == 0 && tb.len() == 0 {
        Seq::empty()
    } else if tb.len() == 0 {
        seq![LANE_A] + merge_order_spec(ta.skip(1), tb)
    } else if ta.len() == 0 {
        seq![LANE_B] + merge_order_spec(ta, tb.skip(1))
    } else if ta[0] <= tb[0] {
        seq![LANE_A] + merge_order_spec(ta.skip(1), tb)
    } else {
        seq![LANE_B] + merge_order_spec(ta, tb.skip(1))
    }
}

/// The first-come-first-served order is a valid merge order.
pub proof fn lemma_greedy_valid(a: Seq<u64>, b: Seq<u64>)
    ensures
        valid_order(greedy_order(a, b), a.len(), b.len()),
    decreases a.len() + b.len(),
{
    let o = greedy_order(a, b);
    if a.len() == 0 && b.len() == 0 {
    } else if b.len() == 0 || (a.len() > 0 && a[0] <= b[0]) {
        lemma_greedy_valid(a.skip(1), b);
        let rest = greedy_order(a.skip(1), b);
        assert(o == seq![LANE_A] + rest);
        assert(o.skip(1) =~= rest);
        assert(o[0] == LANE_A);
        assert(forall|k: int| 1 <= k < o.len() ==> o[k] == rest[k - 1]);
    } else {
        lemma_greedy_valid(a, b.skip(1));
        let rest = greedy_order(a, b.skip(1));
        assert(o == seq![LANE_B] + rest);
        assert(o.skip(1) =~= rest);
        assert(o[0] == LANE_B);
        assert(forall|k: int| 1 <= k < o.len() ==> o[k] == rest[k - 1]);
    }
}

} // verus!

verus! {

/// Completion time of the schedule a merge order determines.
pub open spec fn order_makespan(o: Seq<usize>, a: Seq<u64>, b: Seq<u64>, para: Parameters) -> int {
    max_i(
        last_or0(sched_times(o, a, b, para, LANE_A)),
        last_or0(sched_times(o, a, b, para, LANE_B)),
    )
}

/// Largest per-vehicle delay of the schedule a merge order determines.
pub open spec fn order_max_delay(o: Seq<usize>, a: Seq<u64>, b: Seq<u64>, para: Parameters) -> int {
    max_i(
        crate::traffic_gen::max_delay_lane(sched_times(o, a, b, para, LANE_A), a),
        max_i(crate::traffic_gen::max_delay_lane(sched_times(o, a, b, para, LANE_B), b), 0),
    )
}

/// The annealing objective: a weighted blend of the largest delay and
/// the completion time.
pub open spec fn order_cost(
    o: Seq<usize>,
    a: Seq<u64>,
    b: Seq<u64>,
    para: Parameters,
    w1: u32,
    w2: u32,
) -> int {
    w1 * order_max_delay(o, a, b, para) + w2 * order_makespan(o, a, b, para)
}

} // verus!

verus! {

/// In a non-empty merge order, the lane that merges last holds the
/// overall last entering time as its own last entry.
pub proof fn lemma_lane_last(
    o: Seq<usize>,
    a: Seq<u64>,
    b: Seq<u64>,
    para: Parameters,
    i: nat,
    j: nat,
    pl: usize,
    tp: int,
)
    requires
        o.len() > 0,
        forall|k: int| 0 <= k < o.len() ==> valid_label(#[trigger] o[k]),
    ensures
        ({
            let lane = o[o.len() - 1];
            &&& lane_times(o, a, b, para, i, j, pl, tp, lane).len() > 0
            &&& lane_times(o, a, b, para, i, j, pl, tp, lane).last() == sim_times(
                o,
                a,
                b,
                para,
                i,
                j,
                pl,
                tp,
            ).last()
        }),
    decreases o.len(),
{
    let l = o[0];
    let arr: int = if l == LANE_A {
        a[i as int] as int
    } else {
        b[j as int] as int
    };
    let t = max_i(arr, tp + gap(para, pl == l));
    let i2: nat = if l == LANE_A {
        i + 1
    } else {
        i
    };
    let j2: nat = if l == LANE_A {
        j
    } else {
        j + 1
    };
    let lane = o[o.len() - 1];
    let s = sim_times(o, a, b, para, i, j, pl, tp);
    let sl = lane_times(o, a, b, para, i, j, pl, tp, lane);
    lemma_sim_shape(o, a, b, para, i, j, pl, tp);
    if o.len() == 1 {
        assert(o.skip(1) =~= Seq::<usize>::empty());
        assert(s =~= seq![t]);
        assert(lane == l);
        assert(lane_times(o.skip(1), a, b, para, i2, j2, l, t, lane) == Seq::<int>::empty());
        assert(sl =~= seq![t]);
    } else {
        assert(forall|k: int|
            0 <= k < o.skip(1).len() ==> valid_label(#[trigger] o.skip(1)[k]));
        assert(o.skip(1)[o.skip(1).len() - 1] == lane);
        lemma_lane_last(o.skip(1), a, b, para, i2, j2, l, t);
        lemma_sim_shape(o.skip(1), a, b, para, i2, j2, l, t);
        let rest = sim_times(o.skip(1), a, b, para, i2, j2, l, t);
        let rest_l = lane_times(o.skip(1), a, b, para, i2, j2, l, t, lane);
        assert(s == seq![t] + rest);
        assert(rest.len() == o.len() - 1);
        assert(s.last() == rest.last());
        if l == lane {
            assert(sl == seq![t] + rest_l);
            assert(sl.last() == rest_l.last());
        } else {
            assert(sl == rest_l);
        }
    }
}

} // verus!
