use vstd::prelude::*;

use crate::max_i;
use crate::order::LANE_A;
use crate::order::LANE_B;
use crate::order::cnt;
use crate::order::gap;
use crate::order::greedy_order;
use crate::order::lane_times;
use crate::order::lemma_cnt_all_same;
use crate::order::lemma_lane_ge_arrival;
use crate::order::lemma_lane_lower;
use crate::order::lemma_sim_shape;
use crate::order::arr_pos;
use crate::order::merge_order_spec;
use crate::order::last_or0;
use crate::order::merged_times;
use crate::order::sched_times;
use crate::order::sim_times;
use crate::order::start_tp;
use crate::order::valid_label;
use crate::order::valid_order;
use crate::traffic_gen::Parameters;

verus! {

/// Reading a schedule's merge order back from its per-lane entering
/// times, by earliest time first (lane A on ties), recovers exactly the
/// order the schedule was simulated from; rebuilding from that order
/// therefore reproduces the schedule.  Headways are strictly positive,
/// so entering times never tie across lanes.
pub proof fn lemma_order_roundtrip(
    o: Seq<usize>,
    a: Seq<u64>,
    b: Seq<u64>,
    para: Parameters,
    i: nat,
    j: nat,
    pl: usize,
    tp: int,
)
    requires
        para.valid(),
        forall|k: int| 0 <= k < o.len() ==> valid_label(#[trigger] o[k]),
    ensures
        merge_order_spec(
            lane_times(o, a, b, para, i, j, pl, tp, LANE_A),
            lane_times(o, a, b, para, i, j, pl, tp, LANE_B),
        ) == o,
    decreases o.len(),
{
    if o.len() == 0 {
        assert(merge_order_spec(
            lane_times(o, a, b, para, i, j, pl, tp, LANE_A),
            lane_times(o, a, b, para, i, j, pl, tp, LANE_B),
        ) =~= o);
    } else {
        let l = o[0];
        let arr: int = if l == LANE_A {
            a[i as int] as int
        } else {
            b[j as int] as int
        };
        let t = max_i(arr, tp + gap(para, pl == l));
        let i2: nat = if l == LANE_A {
            i + 1
        } else {
            i
        };
        let j2: nat = if l == LANE_A {
            j
        } else {
            j + 1
        };
        let ra = lane_times(o.skip(1), a, b, para, i2, j2, l, t, LANE_A);
        let rb = lane_times(o.skip(1), a, b, para, i2, j2, l, t, LANE_B);
        lemma_lane_lower(o.skip(1), a, b, para, i2, j2, l, t, LANE_A);
        lemma_lane_lower(o.skip(1), a, b, para, i2, j2, l, t, LANE_B);
        assert(forall|k: int|
            0 <= k < o.skip(1).len() ==> valid_label(#[trigger] o.skip(1)[k]));
        lemma_order_roundtrip(o.skip(1), a, b, para, i2, j2, l, t);
        if l == LANE_A {
            let sx = lane_times(o, a, b, para, i, j, pl, tp, LANE_A);
            assert(sx == seq![t] + ra);
            assert(sx.skip(1) =~= ra);
            assert(sx[0] == t);
            if rb.len() > 0 {
                assert(rb[0] > t);
            }
            assert(merge_order_spec(sx, rb) == seq![LANE_A] + merge_order_spec(ra, rb));
            assert(seq![LANE_A] + o.skip(1) =~= o);
        } else {
            let sy = lane_times(o, a, b, para, i, j, pl, tp, LANE_B);
            assert(sy == seq![t] + rb);
            assert(sy.skip(1) =~= rb);
            assert(sy[0] == t);
            if ra.len() > 0 {
                assert(ra[0] > t);
            }
            assert(merge_order_spec(ra, sy) == seq![LANE_B] + merge_order_spec(ra, rb));
            assert(seq![LANE_B] + o.skip(1) =~= o);
        }
    }
}

} // verus!

verus! {

/// Feasibility of every simulated schedule: no vehicle enters before it
/// arrives, and any two consecutive merges are separated by at least the
/// same-lane or cross-lane headway, whichever applies.
pub proof fn lemma_schedule_feasible(o: Seq<usize>, a: Seq<u64>, b: Seq<u64>, para: Parameters)
    requires
        para.valid(),
        valid_order(o, a.len(), b.len()),
    ensures
        forall|k: int|
            0 <= k < sched_times(o, a, b, para, LANE_A).len() ==> #[trigger] sched_times(
                o,
                a,
                b,
                para,
                LANE_A,
            )[k] >= a[k],
        forall|k: int|
            0 <= k < sched_times(o, a, b, para, LANE_B).len() ==> #[trigger] sched_times(
                o,
                a,
                b,
                para,
                LANE_B,
            )[k] >= b[k],
        merged_times(o, a, b, para).len() == o.len(),
        forall|k: int|
            1 <= k < o.len() ==> #[trigger] merged_times(o, a, b, para)[k] >= merged_times(
                o,
                a,
                b,
                para,
            )[k - 1] + gap(para, o[k - 1] == o[k]),
{
    lemma_lane_ge_arrival(o, a, b, para, 0, 0, LANE_A, start_tp(para));
    lemma_sim_shape(o, a, b, para, 0, 0, LANE_A, start_tp(para));
}

/// First-come-first-served causality: each entering time of the
/// arrival-order policy is exactly the later of the vehicle's own
/// arrival and the earliest instant the headway after the merge right
/// before it allows — so no assigned time could be lowered without
/// entering before arrival or breaking that headway.
pub proof fn lemma_fcfs_tight(a: Seq<u64>, b: Seq<u64>, para: Parameters)
    requires
        para.valid(),
    ensures
        ({
            let o = greedy_order(a, b);
            let m = merged_times(o, a, b, para);
            &&& (o.len() > 0 ==> m[0] == arr_pos(o, a, b, 0, 0, 0))
            &&& forall|k: int|
                1 <= k < o.len() ==> #[trigger] m[k] == max_i(
                    arr_pos(o, a, b, 0, 0, k),
                    m[k - 1] + gap(para, o[k - 1] == o[k]),
                )
        }),
{
    let o = greedy_order(a, b);
    let m = merged_times(o, a, b, para);
    crate::order::lemma_greedy_valid(a, b);
    lemma_sim_shape(o, a, b, para, 0, 0, LANE_A, start_tp(para));
    assert forall|k: int| 0 <= k < o.len() implies (k == 0 ==> m[0] == arr_pos(o, a, b, 0, 0, 0))
        && (k >= 1 ==> #[trigger] m[k] == max_i(
        arr_pos(o, a, b, 0, 0, k),
        m[k - 1] + gap(para, o[k - 1] == o[k]),
    )) by {
        if k == 0 {
            assert(m[0] == max_i(
                arr_pos(o, a, b, 0, 0, 0),
                start_tp(para) + gap(para, LANE_A == o[0]),
            ));
            assert(gap(para, LANE_A == o[0]) <= crate::order::wmax(para));
            assert(arr_pos(o, a, b, 0, 0, 0) >= 0);
            assert(m[0] == arr_pos(o, a, b, 0, 0, 0));
        } else {
            assert(m[k] == max_i(
                arr_pos(o, a, b, 0, 0, k),
                m[k - 1] + gap(para, o[k - 1] == o[k]),
            ));
        }
    }
}

proof fn lemma_lane_all_same(
    o: Seq<usize>,
    a: Seq<u64>,
    b: Seq<u64>,
    para: Parameters,
    i: nat,
    j: nat,
    pl: usize,
    tp: int,
    lane: usize,
)
    requires
        forall|k: int| 0 <= k < o.len() ==> o[k] == lane,
    ensures
        lane_times(o, a, b, para, i, j, pl, tp, lane) == sim_times(o, a, b, para, i, j, pl, tp),
    decreases o.len(),
{
    if o.len() > 0 {
        let l = o[0];
        let arr: int = if l == LANE_A {
            a[i as int] as int
        } else {
            b[j as int] as int
        };
        let t = max_i(arr, tp + gap(para, pl == l));
        let i2: nat = if l == LANE_A {
            i + 1
        } else {
            i
        };
        let j2: nat = if l == LANE_A {
            j
        } else {
            j + 1
        };
        assert(forall|k: int| 0 <= k < o.skip(1).len() ==> o.skip(1)[k] == lane);
        lemma_lane_all_same(o.skip(1), a, b, para, i2, j2, l, t, lane);
    }
}

/// Single-lane traffic degenerates every schedule of a valid order to
/// the plain running-headway chain: the first vehicle enters at its own
/// arrival, and each later one at its arrival or one same-lane headway
/// after its predecessor, whichever is later.
pub proof fn lemma_single_lane_chain(o: Seq<usize>, a: Seq<u64>, b: Seq<u64>, para: Parameters)
    requires
        para.valid(),
        valid_order(o, a.len(), 0),
    ensures
        ({
            let s = sched_times(o, a, b, para, LANE_A);
            &&& s.len() == a.len()
            &&& (a.len() > 0 ==> s[0] == a[0])
            &&& forall|k: int|
                1 <= k < s.len() ==> #[trigger] s[k] == max_i(a[k] as int, s[k - 1] + para.w_e)
        }),
{
    let s = sched_times(o, a, b, para, LANE_A);
    let m = merged_times(o, a, b, para);
    lemma_cnt_all_same(o, LANE_A);
    crate::order::lemma_cnt_total(o);
    lemma_lane_all_same(o, a, b, para, 0, 0, LANE_A, start_tp(para), LANE_A);
    lemma_sim_shape(o, a, b, para, 0, 0, LANE_A, start_tp(para));
    assert(s == m);
    assert(s.len() == o.len());
    assert(o.len() == a.len());
    assert forall|k: int| 0 <= k < s.len() implies arr_pos(o, a, b, 0, 0, k) == a[k] as int by {
        crate::order::lemma_cnt_split(o, LANE_B, k);
        assert(cnt(o.take(k), LANE_B) == 0);
        assert(forall|q: int| 0 <= q < o.take(k).len() ==> valid_label(#[trigger] o.take(k)[q]));
        crate::order::lemma_cnt_total(o.take(k));
        assert(cnt(o.take(k), LANE_A) == k);
        assert(o[k] == LANE_A);
    }
    if a.len() > 0 {
        assert(m[0] == max_i(
            arr_pos(o, a, b, 0, 0, 0),
            start_tp(para) + gap(para, LANE_A == o[0]),
        ));
        assert(gap(para, LANE_A == o[0]) <= crate::order::wmax(para));
        assert(s[0] == a[0]);
    }
    assert forall|k: int| 1 <= k < s.len() implies #[trigger] s[k] == max_i(
        a[k] as int,
        s[k - 1] + para.w_e,
    ) by {
        assert(m[k] == max_i(arr_pos(o, a, b, 0, 0, k), m[k - 1] + gap(para, o[k - 1] == o[k])));
        assert(o[k] == LANE_A && o[k - 1] == LANE_A);
        assert(gap(para, true) == para.w_e);
    }
}

} // verus!

verus! {

/// Optimality of the dynamic-programming completion time: no valid
/// merge order of the same vehicles finishes earlier.  Together with the
/// exact scheduler's contract — its completion time equals this very
/// lattice optimum and its schedule simulates one valid order — the
/// returned schedule attains the minimum makespan.
pub proof fn lemma_dp_optimal(o: Seq<usize>, a: Seq<u64>, b: Seq<u64>, para: Parameters)
    requires
        para.valid(),
        crate::order::fits(a, b, para),
        valid_order(o, a.len(), b.len()),
    ensures
        crate::dp::dp_makespan(a, b, para) <= crate::order::order_makespan(o, a, b, para),
{
    let n = o.len();
    crate::order::lemma_cnt_total(o);
    if n == 0 {
        assert(a.len() == 0 && b.len() == 0);
        assert(crate::dp::dp_makespan(a, b, para) == 0);
        assert(sched_times(o, a, b, para, LANE_A) == Seq::<int>::empty());
        assert(sched_times(o, a, b, para, LANE_B) == Seq::<int>::empty());
    } else {
        crate::dp::lemma_sim_dominates(o, a, b, para, 0, 0, LANE_A, start_tp(para));
        lemma_sim_shape(o, a, b, para, 0, 0, LANE_A, start_tp(para));
        let m = merged_times(o, a, b, para);
        let lane = o[n - 1];
        assert(o.take(n as int) =~= o);
        assert(m[n - 1] >= crate::dp::dp_l(a, b, para, a.len(), b.len(), lane));
        assert(crate::dp::dp_makespan(a, b, para) <= crate::dp::dp_l(
            a,
            b,
            para,
            a.len(),
            b.len(),
            lane,
        ));
        crate::order::lemma_lane_last(o, a, b, para, 0, 0, LANE_A, start_tp(para));
        let sl = sched_times(o, a, b, para, lane);
        assert(sl.last() == m.last());
        assert(last_or0(sl) == m[n - 1]);
        if lane == LANE_A {
            assert(crate::order::order_makespan(o, a, b, para) >= last_or0(
                sched_times(o, a, b, para, LANE_A),
            ));
        } else {
            assert(crate::order::order_makespan(o, a, b, para) >= last_or0(
                sched_times(o, a, b, para, LANE_B),
            ));
        }
    }
}

} // verus!
