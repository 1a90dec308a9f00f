use vstd::prelude::*;

use crate::max_i;
use crate::time_max;
use crate::order::LANE_A;
use crate::order::LANE_B;
use crate::order::fits;
use crate::order::gap;
use crate::order::lemma_mul_dist;
use crate::order::lemma_mul_le;
use crate::order::lemma_max_elem_bound;
use crate::order::as_ints;
use crate::order::cnt;
use crate::order::lane_times;
use crate::order::last_or0;
use crate::order::sched_times;
use crate::order::sim_times;
use crate::order::start_tp;
use crate::order::valid_order;
use crate::order::max_elem;
use crate::order::valid_label;
use crate::order::wmax;
use crate::scheduler::Schedule;
use crate::scheduler::Scheduler;
use crate::scheduler::matches_order;
use crate::scheduler::max_last;
use crate::scheduler::zeros;
use crate::traffic_gen::Parameters;
use crate::traffic_gen::Traffic;

verus! {

/// Sentinel for lattice states that cannot exist (the named lane cannot
/// have merged last when none of its vehicles merged): larger than every
/// achievable entering time, yet far enough below `u64::MAX` that adding
/// one headway to it cannot wrap.
pub open spec fn dp_inf(para: Parameters) -> int {
    u64::MAX - 2 * (wmax(para) as int)
}

/// The dynamic-programming value `L[i][j][last]`: the least possible
/// entering time of the most recent vehicle, given that `i` lane-A and `j`
/// lane-B vehicles have merged and the last of them came from lane `last`.
/// Impossible states carry the sentinel; ties prefer a lane-A predecessor.
pub open spec fn dp_l(
    a: Seq<u64>,
    b: Seq<u64>,
    para: Parameters,
    i: nat,
    j: nat,
    last: usize,
) -> int
    decreases i + j,
{
    if i == 0 && j == 0 {
        0
    } else if last == LANE_A {
        if i == 0 {
            dp_inf(para)
        } else if i == 1 && j == 0 {
            a[0] as int
        } else {
            let ca = max_i(a[i - 1] as int, dp_l(a, b, para, (i - 1) as nat, j, LANE_A) + para.w_e);
            let cb = max_i(a[i - 1] as int, dp_l(a, b, para, (i - 1) as nat, j, LANE_B) + para.w_p);
            if ca <= cb {
                ca
            } else {
                cb
            }
        }
    } else {
        if j == 0 {
            dp_inf(para)
        } else if j == 1 && i == 0 {
            b[0] as int
        } else {
            let ca = max_i(b[j - 1] as int, dp_l(a, b, para, i, (j - 1) as nat, LANE_A) + para.w_p);
            let cb = max_i(b[j - 1] as int, dp_l(a, b, para, i, (j - 1) as nat, LANE_B) + para.w_e);
            if ca <= cb {
                ca
            } else {
                cb
            }
        }
    }
}

/// Which lane the winning predecessor of state `(i, j, last)` came from,
/// lane A on ties; lane A for states without a predecessor.
pub open spec fn dp_choice(
    a: Seq<u64>,
    b: Seq<u64>,
    para: Parameters,
    i: nat,
    j: nat,
    last: usize,
) -> usize {
    if i == 0 && j == 0 {
        LANE_A
    } else if last == LANE_A {
        if i == 0 || (i == 1 && j == 0) {
            LANE_A
        } else {
            let ca = max_i(a[i - 1] as int, dp_l(a, b, para, (i - 1) as nat, j, LANE_A) + para.w_e);
            let cb = max_i(a[i - 1] as int, dp_l(a, b, para, (i - 1) as nat, j, LANE_B) + para.w_p);
            if ca <= cb {
                LANE_A
            } else {
                LANE_B
            }
        }
    } else {
        if j == 0 || (j == 1 && i == 0) {
            LANE_A
        } else {
            let ca = max_i(b[j - 1] as int, dp_l(a, b, para, i, (j - 1) as nat, LANE_A) + para.w_p);
            let cb = max_i(b[j - 1] as int, dp_l(a, b, para, i, (j - 1) as nat, LANE_B) + para.w_e);
            if ca <= cb {
                LANE_A
            } else {
                LANE_B
            }
        }
    }
}

/// The best achievable completion time over the whole instance.
pub open spec fn dp_makespan(a: Seq<u64>, b: Seq<u64>, para: Parameters) -> int {
    if dp_l(a, b, para, a.len(), b.len(), LANE_A) <= dp_l(a, b, para, a.len(), b.len(), LANE_B) {
        dp_l(a, b, para, a.len(), b.len(), LANE_A)
    } else {
        dp_l(a, b, para, a.len(), b.len(), LANE_B)
    }
}

/// A lattice state is possible when its "last merged" lane has merged at
/// least one vehicle.
pub open spec fn dp_real(i: nat, j: nat, last: usize) -> bool {
    &&& valid_label(last)
    &&& (last == LANE_A ==> i >= 1)
    &&& (last == LANE_B ==> j >= 1)
}

/// Bounds of the lattice values: possible states stay below the sentinel
/// by a margin, impossible ones carry exactly the sentinel.
pub proof fn lemma_dp_bounds(
    a: Seq<u64>,
    b: Seq<u64>,
    para: Parameters,
    i: nat,
    j: nat,
    last: usize,
)
    requires
        para.valid(),
        fits(a, b, para),
        i <= a.len(),
        j <= b.len(),
        valid_label(last),
    ensures
        i == 0 && j == 0 ==> dp_l(a, b, para, i, j, last) == 0,
        dp_real(i, j, last) && i + j >= 1 ==> 0 <= dp_l(a, b, para, i, j, last) <= max_i(
            max_elem(a),
            max_elem(b),
        ) + (i + j) * (wmax(para) as int),
        !dp_real(i, j, last) && i + j >= 1 ==> dp_l(a, b, para, i, j, last) == dp_inf(para),
        dp_l(a, b, para, i, j, last) <= dp_inf(para),
        max_i(max_elem(a), max_elem(b)) + (i + j) * (wmax(para) as int) < dp_inf(para),
    decreases i + j,
{
    let maxab = max_i(max_elem(a), max_elem(b));
    let wm = wmax(para) as int;
    let n: int = a.len() as int + b.len() as int;
    lemma_max_elem_bound(a);
    lemma_max_elem_bound(b);
    lemma_mul_le(i as int + j as int, n, wm);
    lemma_mul_le(n, n + 4, wm);
    assert(maxab + (n + 4) * wm <= u64::MAX);
    assert(maxab + (i + j) * wm <= maxab + (n + 4) * wm - 4 * wm) by {
        lemma_mul_dist(n + 3, wm);
        lemma_mul_dist(n + 2, wm);
        lemma_mul_dist(n + 1, wm);
        lemma_mul_dist(n, wm);
    }
    assert(maxab + (i + j) * wm < dp_inf(para));
    if i + j >= 1 {
        if last == LANE_A {
            if i == 0 {
                // impossible state
            } else if i == 1 && j == 0 {
                assert(a[0] <= maxab);
                lemma_mul_dist(0, wm);
            } else {
                lemma_dp_bounds(a, b, para, (i - 1) as nat, j, LANE_A);
                lemma_dp_bounds(a, b, para, (i - 1) as nat, j, LANE_B);
                lemma_mul_dist(i + j - 1, wm);
                let ca = max_i(a[i - 1] as int, dp_l(a, b, para, (i - 1) as nat, j, LANE_A)
                    + para.w_e);
                let cb = max_i(a[i - 1] as int, dp_l(a, b, para, (i - 1) as nat, j, LANE_B)
                    + para.w_p);
                if i - 1 >= 1 {
                    assert(ca <= maxab + (i + j) * wm);
                } else {
                    // the lane-A predecessor is impossible, so lane B wins
                    assert(j >= 1);
                    assert(cb <= maxab + (i + j) * wm);
                    assert(ca > dp_inf(para));
                }
            }
        } else {
            if j == 0 {
            } else if j == 1 && i == 0 {
                assert(b[0] <= maxab);
                lemma_mul_dist(0, wm);
            } else {
                lemma_dp_bounds(a, b, para, i, (j - 1) as nat, LANE_A);
                lemma_dp_bounds(a, b, para, i, (j - 1) as nat, LANE_B);
                lemma_mul_dist(i + j - 1, wm);
                let ca = max_i(b[j - 1] as int, dp_l(a, b, para, i, (j - 1) as nat, LANE_A)
                    + para.w_p);
                let cb = max_i(b[j - 1] as int, dp_l(a, b, para, i, (j - 1) as nat, LANE_B)
                    + para.w_e);
                if i >= 1 {
                    assert(ca <= maxab + (i + j) * wm);
                } else {
                    assert(j - 1 >= 1);
                    assert(cb <= maxab + (i + j) * wm);
                    assert(ca > dp_inf(para));
                }
            }
        }
    }
}

/// The recurrence seen from the chosen predecessor: a possible state's
/// value is its vehicle's arrival or the predecessor's value plus the
/// separating headway, whichever is later, and the chosen predecessor is
/// itself possible (or the empty initial state).
pub proof fn lemma_dp_step(
    a: Seq<u64>,
    b: Seq<u64>,
    para: Parameters,
    i: nat,
    j: nat,
    last: usize,
)
    requires
        para.valid(),
        fits(a, b, para),
        i <= a.len(),
        j <= b.len(),
        dp_real(i, j, last),
        i + j >= 2,
    ensures
        valid_label(dp_choice(a, b, para, i, j, last)),
        ({
            let pl = dp_choice(a, b, para, i, j, last);
            let pi: nat = if last == LANE_A {
                (i - 1) as nat
            } else {
                i
            };
            let pj: nat = if last == LANE_A {
                j
            } else {
                (j - 1) as nat
            };
            let arr: int = if last == LANE_A {
                a[i - 1] as int
            } else {
                b[j - 1] as int
            };
            &&& dp_real(pi, pj, pl) || (pi == 0 && pj == 0)
            &&& dp_l(a, b, para, i, j, last) == max_i(
                arr,
                dp_l(a, b, para, pi, pj, pl) + gap(para, pl == last),
            )
        }),
{
    lemma_max_elem_bound(a);
    lemma_max_elem_bound(b);
    let maxab = max_i(max_elem(a), max_elem(b));
    let wm = wmax(para) as int;
    lemma_dp_bounds(a, b, para, i, j, last);
    lemma_mul_dist(i as int + j as int - 1, wm);
    if last == LANE_A {
        lemma_dp_bounds(a, b, para, (i - 1) as nat, j, LANE_A);
        lemma_dp_bounds(a, b, para, (i - 1) as nat, j, LANE_B);
        assert(a[i - 1] as int <= maxab);
        let ca = max_i(a[i - 1] as int, dp_l(a, b, para, (i - 1) as nat, j, LANE_A) + para.w_e);
        let cb = max_i(a[i - 1] as int, dp_l(a, b, para, (i - 1) as nat, j, LANE_B) + para.w_p);
        if i - 1 == 0 && j >= 1 {
            // the lane-A predecessor is impossible: its candidate exceeds the sentinel
            assert(dp_l(a, b, para, (i - 1) as nat, j, LANE_A) == dp_inf(para));
            assert(cb <= maxab + (i + j) * wm);
            assert(!(ca <= cb));
        } else if j == 0 {
            assert(dp_l(a, b, para, (i - 1) as nat, j, LANE_B) == dp_inf(para));
            assert(ca <= maxab + (i + j) * wm);
            assert(ca <= cb);
        }
    } else {
        lemma_dp_bounds(a, b, para, i, (j - 1) as nat, LANE_A);
        lemma_dp_bounds(a, b, para, i, (j - 1) as nat, LANE_B);
        assert(b[j - 1] as int <= maxab);
        let ca = max_i(b[j - 1] as int, dp_l(a, b, para, i, (j - 1) as nat, LANE_A) + para.w_p);
        let cb = max_i(b[j - 1] as int, dp_l(a, b, para, i, (j - 1) as nat, LANE_B) + para.w_e);
        if j - 1 == 0 && i >= 1 {
            assert(dp_l(a, b, para, i, (j - 1) as nat, LANE_B) == dp_inf(para));
            assert(ca <= maxab + (i + j) * wm);
            assert(ca <= cb);
        } else if i == 0 {
            assert(dp_l(a, b, para, i, (j - 1) as nat, LANE_A) == dp_inf(para));
            assert(cb <= maxab + (i + j) * wm);
            assert(!(ca <= cb));
        }
    }
}

} // verus!

verus! {

/// A two-slot cell of the lattice, one slot per "last merged" lane.
fn two(x: u64, y: u64) -> (r: Vec<u64>)
    ensures
        r@.len() == 2,
        r@[0] == x,
        r@[1] == y,
{
    let mut v: Vec<u64> = Vec::new();
    v.push(x);
    v.push(y);
    v
}

/// A two-slot predecessor cell.
fn twou(x: usize, y: usize) -> (r: Vec<usize>)
    ensures
        r@.len() == 2,
        r@[0] == x,
        r@[1] == y,
{
    let mut v: Vec<usize> = Vec::new();
    v.push(x);
    v.push(y);
    v
}

/// The lane label a slot index stands for.
pub open spec fn slot_lane(c: int) -> usize {
    if c == 0 {
        LANE_A
    } else {
        LANE_B
    }
}

/// Fill the two lattice tables: values `l` and winning predecessors `prev`,
/// row by row, boundary states seeded from each lane's own headway chain
/// and impossible states carrying the sentinel.
#[verifier::loop_isolation(false)]
fn dp_tables(a: &Vec<u64>, b: &Vec<u64>, para: &Parameters) -> (r: (
    Vec<Vec<Vec<u64>>>,
    Vec<Vec<Vec<usize>>>,
))
    requires
        para.valid(),
        fits(a@, b@, *para),
    ensures
        r.0@.len() == a@.len() + 1,
        r.1@.len() == a@.len() + 1,
        forall|x: int| 0 <= x <= a@.len() ==> #[trigger] r.0@[x]@.len() == b@.len() + 1,
        forall|x: int| 0 <= x <= a@.len() ==> #[trigger] r.1@[x]@.len() == b@.len() + 1,
        forall|x: int, y: int|
            0 <= x <= a@.len() && 0 <= y <= b@.len() ==> #[trigger] r.0@[x]@[y]@.len() == 2,
        forall|x: int, y: int|
            0 <= x <= a@.len() && 0 <= y <= b@.len() ==> #[trigger] r.1@[x]@[y]@.len() == 2,
        forall|x: int, y: int, c: int|
            0 <= x <= a@.len() && 0 <= y <= b@.len() && 0 <= c < 2
                ==> #[trigger] r.0@[x]@[y]@[c] as int == dp_l(
                a@,
                b@,
                *para,
                x as nat,
                y as nat,
                slot_lane(c),
            ),
        forall|x: int, y: int, c: int|
            0 <= x <= a@.len() && 0 <= y <= b@.len() && 0 <= c < 2
                ==> #[trigger] r.1@[x]@[y]@[c] == dp_choice(
                a@,
                b@,
                *para,
                x as nat,
                y as nat,
                slot_lane(c),
            ),
{
    let alpha = a.len();
    let beta = b.len();
    let w_e = para.w_e;
    let w_p = para.w_p;
    let wbig = if w_e >= w_p {
        w_e
    } else {
        w_p
    };
    let ghost wm: int = wmax(*para) as int;
    proof {
        assert(wbig == wmax(*para));
        lemma_mul_le(4, alpha as int + beta as int + 4, wm);
        lemma_max_elem_bound(a@);
        lemma_max_elem_bound(b@);
        assert(4 * wm <= u64::MAX);
        assert(alpha as int + beta as int + 4 <= (alpha as int + beta as int + 4) * wm)
            by (nonlinear_arith)
            requires
                wm >= 1,
                alpha as int >= 0,
                beta as int >= 0,
        ;
        assert(alpha as int + beta as int + 4 <= u64::MAX);
    }
    let inf: u64 = u64::MAX - wbig - wbig;
    proof {
        assert(inf as int == dp_inf(*para));
    }
    // row 0: no lane-A vehicle has merged yet
    let mut row: Vec<Vec<u64>> = Vec::new();
    let mut prow: Vec<Vec<usize>> = Vec::new();
    row.push(two(0, 0));
    prow.push(twou(LANE_A, LANE_A));
    proof {
        lemma_dp_bounds(a@, b@, *para, 0, 0, LANE_A);
        lemma_dp_bounds(a@, b@, *para, 0, 0, LANE_B);
    }
    while row.len() <= beta
        invariant
            1 <= row@.len() <= beta + 1,
            prow@.len() == row@.len(),
            forall|y: int| 0 <= y < row@.len() ==> #[trigger] row@[y]@.len() == 2,
            forall|y: int| 0 <= y < row@.len() ==> #[trigger] prow@[y]@.len() == 2,
            forall|y: int, c: int|
                0 <= y < row@.len() && 0 <= c < 2 ==> #[trigger] row@[y]@[c] as int == dp_l(
                    a@,
                    b@,
                    *para,
                    0,
                    y as nat,
                    slot_lane(c),
                ),
            forall|y: int, c: int|
                0 <= y < row@.len() && 0 <= c < 2 ==> #[trigger] prow@[y]@[c] == dp_choice(
                    a@,
                    b@,
                    *para,
                    0,
                    y as nat,
                    slot_lane(c),
                ),
        decreases beta + 1 - row@.len(),
    {
        let j: usize = row.len();
        proof {
            lemma_dp_bounds(a@, b@, *para, 0, (j - 1) as nat, LANE_A);
            lemma_dp_bounds(a@, b@, *para, 0, (j - 1) as nat, LANE_B);
            lemma_dp_bounds(a@, b@, *para, 0, j as nat, LANE_A);
            lemma_dp_bounds(a@, b@, *para, 0, j as nat, LANE_B);
            lemma_mul_dist(j as int - 1, wm);
            lemma_mul_dist(j as int, wm);
        }
        let v_b: u64 = if j == 1 {
            b[0]
        } else {
            time_max(b[j - 1], row[j - 1][1] + w_e)
        };
        let p_b: usize = if j == 1 {
            LANE_A
        } else {
            LANE_B
        };
        row.push(two(inf, v_b));
        prow.push(twou(LANE_A, p_b));
    }
    let mut l: Vec<Vec<Vec<u64>>> = Vec::new();
    let mut prev: Vec<Vec<Vec<usize>>> = Vec::new();
    l.push(row);
    prev.push(prow);
    while l.len() <= alpha
        invariant
            1 <= l@.len() <= alpha + 1,
            prev@.len() == l@.len(),
            forall|x: int| 0 <= x < l@.len() ==> #[trigger] l@[x]@.len() == beta + 1,
            forall|x: int| 0 <= x < l@.len() ==> #[trigger] prev@[x]@.len() == beta + 1,
            forall|x: int, y: int|
                0 <= x < l@.len() && 0 <= y <= beta ==> #[trigger] l@[x]@[y]@.len() == 2,
            forall|x: int, y: int|
                0 <= x < l@.len() && 0 <= y <= beta ==> #[trigger] prev@[x]@[y]@.len() == 2,
            forall|x: int, y: int, c: int|
                0 <= x < l@.len() && 0 <= y <= beta && 0 <= c < 2 ==> #[trigger] l@[x]@[y]@[c]
                    as int == dp_l(a@, b@, *para, x as nat, y as nat, slot_lane(c)),
            forall|x: int, y: int, c: int|
                0 <= x < l@.len() && 0 <= y <= beta && 0 <= c < 2 ==> #[trigger] prev@[x]@[y]@[c]
                    == dp_choice(a@, b@, *para, x as nat, y as nat, slot_lane(c)),
        decreases alpha + 1 - l@.len(),
    {
        let i: usize = l.len();
        let mut row: Vec<Vec<u64>> = Vec::new();
        let mut prow: Vec<Vec<usize>> = Vec::new();
        proof {
            lemma_dp_bounds(a@, b@, *para, (i - 1) as nat, 0, LANE_A);
            lemma_dp_bounds(a@, b@, *para, (i - 1) as nat, 0, LANE_B);
            lemma_dp_bounds(a@, b@, *para, i as nat, 0, LANE_A);
            lemma_dp_bounds(a@, b@, *para, i as nat, 0, LANE_B);
            lemma_mul_dist(i as int - 1, wm);
            lemma_mul_dist(i as int, wm);
        }
        let v_a: u64 = if i == 1 {
            a[0]
        } else {
            time_max(a[i - 1], l[i - 1][0][0] + w_e)
        };
        row.push(two(v_a, inf));
        prow.push(twou(LANE_A, LANE_A));
        while row.len() <= beta
            invariant
                1 <= i <= alpha,
                i == l@.len(),
                1 <= row@.len() <= beta + 1,
                prow@.len() == row@.len(),
                forall|y: int| 0 <= y < row@.len() ==> #[trigger] row@[y]@.len() == 2,
                forall|y: int| 0 <= y < row@.len() ==> #[trigger] prow@[y]@.len() == 2,
                forall|y: int, c: int|
                    0 <= y < row@.len() && 0 <= c < 2 ==> #[trigger] row@[y]@[c] as int == dp_l(
                        a@,
                        b@,
                        *para,
                        i as nat,
                        y as nat,
                        slot_lane(c),
                    ),
                forall|y: int, c: int|
                    0 <= y < row@.len() && 0 <= c < 2 ==> #[trigger] prow@[y]@[c] == dp_choice(
                        a@,
                        b@,
                        *para,
                        i as nat,
                        y as nat,
                        slot_lane(c),
                    ),
            decreases beta + 1 - row@.len(),
        {
            let j: usize = row.len();
            proof {
                lemma_dp_bounds(a@, b@, *para, (i - 1) as nat, j as nat, LANE_A);
                lemma_dp_bounds(a@, b@, *para, (i - 1) as nat, j as nat, LANE_B);
                lemma_dp_bounds(a@, b@, *para, i as nat, (j - 1) as nat, LANE_A);
                lemma_dp_bounds(a@, b@, *para, i as nat, (j - 1) as nat, LANE_B);
                lemma_dp_bounds(a@, b@, *para, i as nat, j as nat, LANE_A);
                lemma_dp_bounds(a@, b@, *para, i as nat, j as nat, LANE_B);
            }
            let ca = time_max(a[i - 1], l[i - 1][j][0] + w_e);
            let cb = time_max(a[i - 1], l[i - 1][j][1] + w_p);
            let v_a: u64;
            let p_a: usize;
            if ca <= cb {
                v_a = ca;
                p_a = LANE_A;
            } else {
                v_a = cb;
                p_a = LANE_B;
            }
            let ca2 = time_max(b[j - 1], row[j - 1][0] + w_p);
            let cb2 = time_max(b[j - 1], row[j - 1][1] + w_e);
            let v_b: u64;
            let p_b: usize;
            if ca2 <= cb2 {
                v_b = ca2;
                p_b = LANE_A;
            } else {
                v_b = cb2;
                p_b = LANE_B;
            }
            row.push(two(v_a, v_b));
            prow.push(twou(p_a, p_b));
        }
        l.push(row);
        prev.push(prow);
    }
    (l, prev)
}

} // verus!

verus! {

/// Walk the predecessor table backward from the chosen final state,
/// recording each state's lattice value as its vehicle's entering time;
/// the traversed lane labels form the optimal merge order.
#[verifier::loop_isolation(false)]
#[verifier::rlimit(100)]
fn dp_backtrack(
    l: &Vec<Vec<Vec<u64>>>,
    prev: &Vec<Vec<Vec<usize>>>,
    a: &Vec<u64>,
    b: &Vec<u64>,
    para: &Parameters,
    last0: usize,
    t_star: u64,
) -> (r: (Vec<u64>, Vec<u64>, Ghost<Seq<usize>>))
    requires
        para.valid(),
        fits(a@, b@, *para),
        l@.len() == a@.len() + 1,
        prev@.len() == a@.len() + 1,
        forall|x: int| 0 <= x <= a@.len() ==> #[trigger] l@[x]@.len() == b@.len() + 1,
        forall|x: int| 0 <= x <= a@.len() ==> #[trigger] prev@[x]@.len() == b@.len() + 1,
        forall|x: int, y: int|
            0 <= x <= a@.len() && 0 <= y <= b@.len() ==> #[trigger] l@[x]@[y]@.len() == 2,
        forall|x: int, y: int|
            0 <= x <= a@.len() && 0 <= y <= b@.len() ==> #[trigger] prev@[x]@[y]@.len() == 2,
        forall|x: int, y: int, c: int|
            0 <= x <= a@.len() && 0 <= y <= b@.len() && 0 <= c < 2 ==> #[trigger] l@[x]@[y]@[c]
                as int == dp_l(a@, b@, *para, x as nat, y as nat, slot_lane(c)),
        forall|x: int, y: int, c: int|
            0 <= x <= a@.len() && 0 <= y <= b@.len() && 0 <= c < 2 ==> #[trigger] prev@[x]@[y]@[c]
                == dp_choice(a@, b@, *para, x as nat, y as nat, slot_lane(c)),
        last0 == (if dp_l(a@, b@, *para, a@.len(), b@.len(), LANE_A) <= dp_l(
            a@,
            b@,
            *para,
            a@.len(),
            b@.len(),
            LANE_B,
        ) {
            LANE_A
        } else {
            LANE_B
        }),
        t_star as int == dp_makespan(a@, b@, *para),
    ensures
        r.0@.len() == a@.len(),
        r.1@.len() == b@.len(),
        valid_order(r.2@, a@.len(), b@.len()),
        as_ints(r.0@) == sched_times(r.2@, a@, b@, *para, LANE_A),
        as_ints(r.1@) == sched_times(r.2@, a@, b@, *para, LANE_B),
        max_i(last_or0(as_ints(r.0@)), last_or0(as_ints(r.1@))) == dp_makespan(a@, b@, *para),
{
    let ghost av = a@;
    let ghost bv = b@;
    let alpha = a.len();
    let beta = b.len();
    proof {
        lemma_dp_bounds(av, bv, *para, alpha as nat, beta as nat, LANE_A);
        lemma_dp_bounds(av, bv, *para, alpha as nat, beta as nat, LANE_B);
        if alpha + beta > 0 {
            // the chosen final state is possible: an impossible side
            // carries the sentinel and loses the comparison
            assert(dp_real(alpha as nat, beta as nat, last0));
        }
    }
    let mut sa = zeros(alpha);
    let mut sb = zeros(beta);
    let mut i: usize = alpha;
    let mut j: usize = beta;
    let mut pf: usize = last0;
    let ghost mut osuf: Seq<usize> = Seq::empty();
    proof {
        assert(as_ints(sa@.skip(alpha as int)) =~= Seq::<int>::empty());
        assert(as_ints(sb@.skip(beta as int)) =~= Seq::<int>::empty());
    }
        while i > 0 || j > 0
            invariant
                i <= alpha,
                j <= beta,
                sa@.len() == alpha,
                sb@.len() == beta,
                forall|k: int| 0 <= k < osuf.len() ==> valid_label(#[trigger] osuf[k]),
                cnt(osuf, LANE_A) == alpha - i,
                cnt(osuf, LANE_B) == beta - j,
                i == alpha && j == beta ==> pf == last0,
                i < alpha || j < beta ==> ((last0 == LANE_A ==> i < alpha) && (last0 == LANE_B
                    ==> j < beta)),
                i + j > 0 ==> dp_real(i as nat, j as nat, pf),
                i + j > 0 ==> as_ints(sa@.skip(i as int)) == lane_times(
                    osuf,
                    av,
                    bv,
                    *para,
                    i as nat,
                    j as nat,
                    pf,
                    dp_l(av, bv, *para, i as nat, j as nat, pf),
                    LANE_A,
                ),
                i + j > 0 ==> as_ints(sb@.skip(j as int)) == lane_times(
                    osuf,
                    av,
                    bv,
                    *para,
                    i as nat,
                    j as nat,
                    pf,
                    dp_l(av, bv, *para, i as nat, j as nat, pf),
                    LANE_B,
                ),
                i + j > 0 ==> 0 <= dp_l(av, bv, *para, i as nat, j as nat, pf) <= t_star,
                i == 0 && j == 0 ==> as_ints(sa@) == sched_times(osuf, av, bv, *para, LANE_A)
                    && as_ints(sb@) == sched_times(osuf, av, bv, *para, LANE_B),
                i < alpha || j < beta ==> ((last0 == LANE_A ==> alpha >= 1 && sa@[alpha - 1]
                    == t_star) && (last0 == LANE_B ==> beta >= 1 && sb@[beta - 1] == t_star)),
                forall|k: int| i <= k < alpha ==> #[trigger] sa@[k] <= t_star,
                forall|k: int| j <= k < beta ==> #[trigger] sb@[k] <= t_star,
            decreases i + j,
        {
            let t = l[i][j][pf];
            let pv = prev[i][j][pf];
            let ghost i_pre = i as int;
            let ghost j_pre = j as int;
            let ghost osuf_pre = osuf;
            let ghost cur = dp_l(av, bv, *para, i as nat, j as nat, pf);
            proof {
                lemma_dp_bounds(av, bv, *para, i as nat, j as nat, LANE_A);
                lemma_dp_bounds(av, bv, *para, i as nat, j as nat, LANE_B);
                assert(t as int == cur);
                if i + j >= 2 {
                    lemma_dp_step(av, bv, *para, i as nat, j as nat, pf);
                }
            }
            let ghost sa_snap = sa@;
            let ghost sb_snap = sb@;
            if pf == LANE_A {
                sa.set(i - 1, t);
                i = i - 1;
            } else {
                sb.set(j - 1, t);
                j = j - 1;
            }
            proof {
                osuf = seq![pf] + osuf_pre;
                assert(osuf.skip(1) =~= osuf_pre);
                assert(osuf[0] == pf);
                assert(cnt(osuf, LANE_A) == (if pf == LANE_A {
                    1nat
                } else {
                    0nat
                }) + cnt(osuf_pre, LANE_A));
                assert(cnt(osuf, LANE_B) == (if pf == LANE_B {
                    1nat
                } else {
                    0nat
                }) + cnt(osuf_pre, LANE_B));
                if pf == LANE_A {
                    assert(sa@.skip(i_pre) =~= sa_snap.skip(i_pre));
                    assert(sa@.skip(i as int) =~= seq![t].add(sa@.skip(i_pre)));
                } else {
                    assert(sb@.skip(j_pre) =~= sb_snap.skip(j_pre));
                    assert(sb@.skip(j as int) =~= seq![t].add(sb@.skip(j_pre)));
                }
            }
            let ghost pf_pre = pf;
            pf = pv;
            proof {
                assert(as_ints(seq![t].add(sa_snap.skip(i_pre))) =~= seq![t as int]
                    + as_ints(sa_snap.skip(i_pre)));
                assert(as_ints(seq![t].add(sb_snap.skip(j_pre))) =~= seq![t as int]
                    + as_ints(sb_snap.skip(j_pre)));
                if i_pre + j_pre == 1 {
                    // base of the lattice: this was the first merge
                    lemma_bt_base(av, bv, *para, pf_pre, osuf_pre);
                    assert(as_ints(sa@) =~= as_ints(sa@.skip(0)));
                    assert(as_ints(sb@) =~= as_ints(sb@.skip(0)));
                } else {
                    // interior step: the predecessor table points at a
                    // possible state whose value extends the chain
                    lemma_bt_interior(
                        av,
                        bv,
                        *para,
                        i_pre as nat,
                        j_pre as nat,
                        pf_pre,
                        osuf_pre,
                    );
                    assert(pv == dp_choice(av, bv, *para, i_pre as nat, j_pre as nat, pf_pre));
                }
            }
        }
    proof {
        assert(valid_order(osuf, alpha as nat, beta as nat));
        assert(as_ints(sa@.skip(0)) =~= as_ints(sa@));
        assert(as_ints(sb@.skip(0)) =~= as_ints(sb@));
        if alpha + beta == 0 {
            assert(osuf.len() == 0);
            assert(as_ints(sa@) =~= Seq::<int>::empty());
            assert(as_ints(sb@) =~= Seq::<int>::empty());
            assert(dp_makespan(av, bv, *para) == 0);
        } else {
            if last0 == LANE_A {
                assert(sa@[alpha - 1] == t_star);
                assert(as_ints(sa@)[alpha - 1] == t_star as int);
                if beta > 0 {
                    assert(as_ints(sb@)[beta - 1] == sb@[beta - 1] as int);
                    assert(sb@[beta - 1] <= t_star);
                }
            } else {
                assert(sb@[beta - 1] == t_star);
                assert(as_ints(sb@)[beta - 1] == t_star as int);
                if alpha > 0 {
                    assert(as_ints(sa@)[alpha - 1] == sa@[alpha - 1] as int);
                    assert(sa@[alpha - 1] <= t_star);
                }
            }
        }
    }
    (sa, sb, Ghost(osuf))
}


/// One interior backtrack step: prepending the current lane label to the
/// suffix order extends the simulated chain by exactly the current
/// lattice value.
proof fn lemma_bt_interior(
    a: Seq<u64>,
    b: Seq<u64>,
    para: Parameters,
    i: nat,
    j: nat,
    pf: usize,
    o: Seq<usize>,
)
    requires
        para.valid(),
        fits(a, b, para),
        i <= a.len(),
        j <= b.len(),
        dp_real(i, j, pf),
        i + j >= 2,
    ensures
        ({
            let pv = dp_choice(a, b, para, i, j, pf);
            let pi: nat = if pf == LANE_A {
                (i - 1) as nat
            } else {
                i
            };
            let pj: nat = if pf == LANE_A {
                j
            } else {
                (j - 1) as nat
            };
            let cur = dp_l(a, b, para, i, j, pf);
            let tpn = dp_l(a, b, para, pi, pj, pv);
            &&& valid_label(pv)
            &&& dp_real(pi, pj, pv) || (pi == 0 && pj == 0)
            &&& 0 <= tpn
            &&& tpn < cur
            &&& lane_times(seq![pf] + o, a, b, para, pi, pj, pv, tpn, LANE_A) == (if pf == LANE_A {
                seq![cur] + lane_times(o, a, b, para, i, j, pf, cur, LANE_A)
            } else {
                lane_times(o, a, b, para, i, j, pf, cur, LANE_A)
            })
            &&& lane_times(seq![pf] + o, a, b, para, pi, pj, pv, tpn, LANE_B) == (if pf == LANE_B {
                seq![cur] + lane_times(o, a, b, para, i, j, pf, cur, LANE_B)
            } else {
                lane_times(o, a, b, para, i, j, pf, cur, LANE_B)
            })
        }),
{
    lemma_dp_step(a, b, para, i, j, pf);
    let pv = dp_choice(a, b, para, i, j, pf);
    let pi: nat = if pf == LANE_A {
        (i - 1) as nat
    } else {
        i
    };
    let pj: nat = if pf == LANE_A {
        j
    } else {
        (j - 1) as nat
    };
    let cur = dp_l(a, b, para, i, j, pf);
    let tpn = dp_l(a, b, para, pi, pj, pv);
    lemma_dp_bounds(a, b, para, pi, pj, LANE_A);
    lemma_dp_bounds(a, b, para, pi, pj, LANE_B);
    assert(cur >= tpn + gap(para, pv == pf));
    let o2 = seq![pf] + o;
    assert(o2.skip(1) =~= o);
    assert(o2[0] == pf);
    assert(max_i(
        (if pf == LANE_A {
            a[pi as int] as int
        } else {
            b[pj as int] as int
        }),
        tpn + gap(para, pv == pf),
    ) == cur);
}

/// The first merge of the order: its entering time is its own arrival,
/// the virtual start time being early enough not to constrain it.
proof fn lemma_bt_base(a: Seq<u64>, b: Seq<u64>, para: Parameters, pf: usize, o: Seq<usize>)
    requires
        para.valid(),
        fits(a, b, para),
        valid_label(pf),
        pf == LANE_A ==> a.len() >= 1,
        pf == LANE_B ==> b.len() >= 1,
    ensures
        ({
            let i2: nat = if pf == LANE_A {
                1
            } else {
                0
            };
            let j2: nat = if pf == LANE_A {
                0
            } else {
                1
            };
            let arr: int = if pf == LANE_A {
                a[0] as int
            } else {
                b[0] as int
            };
            &&& dp_l(a, b, para, i2, j2, pf) == arr
            &&& sched_times(seq![pf] + o, a, b, para, LANE_A) == (if pf == LANE_A {
                seq![arr] + lane_times(o, a, b, para, i2, j2, pf, arr, LANE_A)
            } else {
                lane_times(o, a, b, para, i2, j2, pf, arr, LANE_A)
            })
            &&& sched_times(seq![pf] + o, a, b, para, LANE_B) == (if pf == LANE_B {
                seq![arr] + lane_times(o, a, b, para, i2, j2, pf, arr, LANE_B)
            } else {
                lane_times(o, a, b, para, i2, j2, pf, arr, LANE_B)
            })
        }),
{
    let arr: int = if pf == LANE_A {
        a[0] as int
    } else {
        b[0] as int
    };
    let o2 = seq![pf] + o;
    assert(o2.skip(1) =~= o);
    assert(o2[0] == pf);
    assert(gap(para, LANE_A == pf) <= wmax(para));
    assert(max_i(arr, start_tp(para) + gap(para, LANE_A == o2[0])) == arr);
}

/// The exact scheduler: dynamic programming over the full lattice of
/// merge interleavings, minimizing the completion time of the last
/// vehicle, with backtracking through the predecessor table.
pub struct DP;

impl Scheduler for DP {
    fn method(&self) -> (r: String)
        ensures
            r@ == "DP"@,
    {
        String::from_str("DP")
    }

    #[verifier::rlimit(30)]
    fn solve(&self, traffic: &Traffic, para: &Parameters) -> (r: Option<Schedule>)
        ensures
            r is Some ==> r->Some_0.spec_t_last() as int == dp_makespan(
                traffic@[0],
                traffic@[1],
                *para,
            ),
            r is Some ==> forall|o: Seq<usize>|
                valid_order(o, traffic@[0].len(), traffic@[1].len())
                    ==> r->Some_0.spec_t_last() as int <= crate::order::order_makespan(
                    o,
                    traffic@[0],
                    traffic@[1],
                    *para,
                ),
    {
        if traffic.lane_count() < 2 {
            return None;
        }
        let a = traffic.lane(0);
        let b = traffic.lane(1);
        let ghost av = a@;
        let ghost bv = b@;
        let alpha = a.len();
        let beta = b.len();
        let tables = dp_tables(a, b, para);
        let l = tables.0;
        let prev = tables.1;
        let last0: usize = if l[alpha][beta][0] <= l[alpha][beta][1] {
            LANE_A
        } else {
            LANE_B
        };
        let t_star: u64 = l[alpha][beta][last0];
        proof {
            lemma_dp_bounds(av, bv, *para, alpha as nat, beta as nat, LANE_A);
            lemma_dp_bounds(av, bv, *para, alpha as nat, beta as nat, LANE_B);
            assert(t_star as int == dp_makespan(av, bv, *para));
        }
        let bt = dp_backtrack(&l, &prev, a, b, para, last0, t_star);
        let ghost osuf = bt.2@;
        let mut both: Vec<Vec<u64>> = Vec::new();
        let sa = bt.0;
        let sb = bt.1;
        let ghost sav = sa@;
        let ghost sbv = sb@;
        both.push(sa);
        both.push(sb);
        let schd = Schedule::from_scheuled_times(both);
        proof {
            let all = both@.map_values(|v: Vec<u64>| v@);
            assert(all.len() == 2);
            assert(all[0] == sav && all[1] == sbv);
            assert(all.drop_last() =~= seq![all[0]]);
            assert(seq![all[0]].drop_last() =~= Seq::<Seq<u64>>::empty());
            let lx = last_or0(as_ints(all[0]));
            let ly = last_or0(as_ints(all[1]));
            assert(max_last(Seq::<Seq<u64>>::empty()) == 0);
            assert(max_last(seq![all[0]]) == max_i(0, lx));
            assert(max_last(all) == max_i(max_last(all.drop_last()), ly));
            if all[0].len() > 0 {
                assert(as_ints(all[0])[all[0].len() - 1] == all[0][all[0].len() - 1] as int);
            }
            assert(lx >= 0);
            assert(max_last(all) == max_i(lx, ly));
            assert(schd.spec_t_last() as int == dp_makespan(av, bv, *para));
            assert(valid_order(osuf, av.len(), bv.len()) && matches_order(
                schd,
                osuf,
                av,
                bv,
                *para,
            ));
            assert forall|o: Seq<usize>| valid_order(o, av.len(), bv.len())
                implies schd.spec_t_last() as int <= crate::order::order_makespan(
                o,
                av,
                bv,
                *para,
            ) by {
                crate::laws::lemma_dp_optimal(o, av, bv, *para);
            }
        }
        Some(schd)
    }
}

} // verus!

verus! {

/// One simulated step from a dominated state stays dominated: the next
/// entering time is at least the lattice value of the state it reaches.
proof fn lemma_dom_head(
    a: Seq<u64>,
    b: Seq<u64>,
    para: Parameters,
    i: nat,
    j: nat,
    pl: usize,
    tp: int,
    l: usize,
)
    requires
        para.valid(),
        fits(a, b, para),
        valid_label(l),
        (dp_real(i, j, pl) && tp >= dp_l(a, b, para, i, j, pl)) || (i == 0 && j == 0),
    ensures
        ({
            let arr: int = if l == LANE_A {
                a[i as int] as int
            } else {
                b[j as int] as int
            };
            let t = max_i(arr, tp + gap(para, pl == l));
            let i2: nat = if l == LANE_A {
                i + 1
            } else {
                i
            };
            let j2: nat = if l == LANE_A {
                j
            } else {
                j + 1
            };
            t >= dp_l(a, b, para, i2, j2, l)
        }),
{
    let arr: int = if l == LANE_A {
        a[i as int] as int
    } else {
        b[j as int] as int
    };
    let t = max_i(arr, tp + gap(para, pl == l));
    let i2: nat = if l == LANE_A {
        i + 1
    } else {
        i
    };
    let j2: nat = if l == LANE_A {
        j
    } else {
        j + 1
    };
    if i == 0 && j == 0 {
        if l == LANE_A {
            assert(dp_l(a, b, para, 1, 0, LANE_A) == arr);
        } else {
            assert(dp_l(a, b, para, 0, 1, LANE_B) == arr);
        }
    } else {
        // the lattice minimizes over the predecessor the order used
        assert(i2 + j2 >= 2);
        if l == LANE_A {
            let ca = max_i(a[i2 - 1] as int, dp_l(a, b, para, (i2 - 1) as nat, j2, LANE_A)
                + para.w_e);
            let cb = max_i(a[i2 - 1] as int, dp_l(a, b, para, (i2 - 1) as nat, j2, LANE_B)
                + para.w_p);
            assert(dp_l(a, b, para, i2, j2, l) <= ca && dp_l(a, b, para, i2, j2, l) <= cb);
            if pl == LANE_A {
                assert(gap(para, pl == l) == para.w_e);
                assert(t >= ca);
            } else {
                assert(gap(para, pl == l) == para.w_p);
                assert(t >= cb);
            }
        } else {
            let ca = max_i(b[j2 - 1] as int, dp_l(a, b, para, i2, (j2 - 1) as nat, LANE_A)
                + para.w_p);
            let cb = max_i(b[j2 - 1] as int, dp_l(a, b, para, i2, (j2 - 1) as nat, LANE_B)
                + para.w_e);
            assert(dp_l(a, b, para, i2, j2, l) <= ca && dp_l(a, b, para, i2, j2, l) <= cb);
            if pl == LANE_A {
                assert(t >= ca);
            } else {
                assert(t >= cb);
            }
        }
    }
}

/// Every interleaving is dominated by the lattice: simulating any merge
/// order from a state whose time is at least the lattice value of that
/// state keeps every later entering time at or above the lattice value
/// of the state it reaches.
#[verifier::rlimit(100)]
pub proof fn lemma_sim_dominates(
    o: Seq<usize>,
    a: Seq<u64>,
    b: Seq<u64>,
    para: Parameters,
    i: nat,
    j: nat,
    pl: usize,
    tp: int,
)
    requires
        para.valid(),
        fits(a, b, para),
        forall|k: int| 0 <= k < o.len() ==> valid_label(#[trigger] o[k]),
        i + cnt(o, LANE_A) <= a.len(),
        j + cnt(o, LANE_B) <= b.len(),
        (dp_real(i, j, pl) && tp >= dp_l(a, b, para, i, j, pl)) || (i == 0 && j == 0),
    ensures
        forall|k: int|
            0 <= k < o.len() ==> #[trigger] sim_times(o, a, b, para, i, j, pl, tp)[k] >= dp_l(
                a,
                b,
                para,
                i + cnt(o.take(k + 1), LANE_A),
                j + cnt(o.take(k + 1), LANE_B),
                o[k],
            ),
    decreases o.len(),
{
    if o.len() == 0 {
        return ;
    }
    let l = o[0];
    let arr: int = if l == LANE_A {
        a[i as int] as int
    } else {
        b[j as int] as int
    };
    let t = max_i(arr, tp + gap(para, pl == l));
    let i2: nat = if l == LANE_A {
        i + 1
    } else {
        i
    };
    let j2: nat = if l == LANE_A {
        j
    } else {
        j + 1
    };
    let s = sim_times(o, a, b, para, i, j, pl, tp);
    // the first step lands at or above its state's lattice value
    assert(cnt(o, l) >= 1);
    assert(o.take(1) =~= seq![l]);
    assert(o.take(1)[0] == l);
    assert(o.take(1).skip(1) =~= Seq::<usize>::empty());
    assert(valid_label(o[0]));
    assert(cnt(Seq::<usize>::empty(), LANE_A) == 0);
    assert(cnt(Seq::<usize>::empty(), LANE_B) == 0);
    assert(cnt(o.take(1), l) == 1);
    assert(cnt(o.take(1), if l == LANE_A {
        LANE_B
    } else {
        LANE_A
    }) == 0);
    lemma_dom_head(a, b, para, i, j, pl, tp, l);
    assert(t >= dp_l(a, b, para, i2, j2, l));
    assert(s[0] >= dp_l(a, b, para, i + cnt(o.take(1), LANE_A), j + cnt(o.take(1), LANE_B), o[0]));
    // the rest by induction from the reached state
    assert(forall|k: int| 0 <= k < o.skip(1).len() ==> valid_label(#[trigger] o.skip(1)[k]));
    assert(cnt(o, LANE_A) == (if l == LANE_A {
        1nat
    } else {
        0nat
    }) + cnt(o.skip(1), LANE_A));
    assert(cnt(o, LANE_B) == (if l == LANE_B {
        1nat
    } else {
        0nat
    }) + cnt(o.skip(1), LANE_B));
    lemma_sim_dominates(o.skip(1), a, b, para, i2, j2, l, t);
    crate::order::lemma_sim_shape(o, a, b, para, i, j, pl, tp);
    let rest = sim_times(o.skip(1), a, b, para, i2, j2, l, t);
    assert(s == seq![t] + rest);
    assert(s.len() == o.len());
    assert forall|k: int| 1 <= k < o.len() implies #[trigger] s[k] >= dp_l(
        a,
        b,
        para,
        i + cnt(o.take(k + 1), LANE_A),
        j + cnt(o.take(k + 1), LANE_B),
        o[k],
    ) by {
        assert(s[k] == rest[k - 1]);
        assert(rest[k - 1] >= dp_l(
            a,
            b,
            para,
            i2 + cnt(o.skip(1).take(k), LANE_A),
            j2 + cnt(o.skip(1).take(k), LANE_B),
            o.skip(1)[k - 1],
        ));
        assert(o.skip(1)[k - 1] == o[k]);
        assert(o.skip(1).take(k) =~= o.take(k + 1).skip(1));
        assert(o.take(k + 1).len() == k + 1);
        assert(o.take(k + 1)[0] == o[0]);
        assert(cnt(o.take(k + 1), LANE_A) == (if l == LANE_A {
            1nat
        } else {
            0nat
        }) + cnt(o.take(k + 1).skip(1), LANE_A));
        assert(cnt(o.take(k + 1), LANE_B) == (if l == LANE_B {
            1nat
        } else {
            0nat
        }) + cnt(o.take(k + 1).skip(1), LANE_B));
        assert(i2 + cnt(o.skip(1).take(k), LANE_A) == i + cnt(o.take(k + 1), LANE_A));
        assert(j2 + cnt(o.skip(1).take(k), LANE_B) == j + cnt(o.take(k + 1), LANE_B));
    }
}

} // verus!
