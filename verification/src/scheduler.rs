use vstd::prelude::*;

use crate::max_i;
use crate::time_max;
use crate::order::LANE_A;
use crate::order::LANE_B;
use crate::order::as_ints;
use crate::order::cnt;
use crate::order::fits;
use crate::order::gap;
use crate::order::lane_times;
use crate::order::last_or0;
use crate::order::lemma_cnt_split;
use crate::order::lemma_cnt_take_succ;
use crate::order::lemma_cnt_total;
use crate::order::lemma_max_elem_bound;
use crate::order::lemma_mul_dist;
use crate::order::lemma_mul_le;
use crate::order::lemma_skip_skip;
use crate::order::max_elem;
use crate::order::merge_order_spec;
use crate::order::sched_times;
use crate::order::start_tp;
use crate::order::valid_label;
use crate::order::valid_order;
use crate::order::wmax;
use crate::traffic_gen::Lane;
use crate::traffic_gen::Parameters;
use crate::traffic_gen::Traffic;

verus! {

/// A vector of `n` zeroed time slots.
pub(crate) fn zeros(n: usize) -> (r: Vec<u64>)
    ensures
        r@.len() == n,
        forall|k: int| 0 <= k < n ==> r@[k] == 0,
{
    let mut r: Vec<u64> = Vec::new();
    let mut k: usize = 0;
    while k < n
        invariant
            k <= n,
            r@.len() == k,
            forall|m: int| 0 <= m < k ==> r@[m] == 0,
        decreases n - k,
    {
        r.push(0);
        k = k + 1;
    }
    r
}

/// Largest final entering time over all lanes, 0 where a lane is empty.
pub open spec fn max_last(times: Seq<Seq<u64>>) -> int
    decreases times.len(),
{
    if times.len() == 0 {
        0
    } else {
        max_i(max_last(times.drop_last()), last_or0(as_ints(times.last())))
    }
}

/// The output of a scheduler: one assigned entering time per vehicle, in the
/// vehicle order of each lane, plus the completion time of the whole merge.
#[derive(Debug)]
pub struct Schedule {
    scheduled_entering_times: Vec<Lane>,
    t_last: u64,
}

/// `s` is exactly the schedule that merge order `o` determines by forward
/// simulation over the arrivals `a` and `b`.
pub open spec fn matches_order(
    s: Schedule,
    o: Seq<usize>,
    a: Seq<u64>,
    b: Seq<u64>,
    para: Parameters,
) -> bool {
    &&& s.times().len() == 2
    &&& as_ints(s.times()[0]) == sched_times(o, a, b, para, LANE_A)
    &&& as_ints(s.times()[1]) == sched_times(o, a, b, para, LANE_B)
    &&& s.spec_t_last() as int == max_i(
        last_or0(sched_times(o, a, b, para, LANE_A)),
        last_or0(sched_times(o, a, b, para, LANE_B)),
    )
}

impl Schedule {
    /// Per-lane assigned entering times, the mathematical value.
    pub closed spec fn times(&self) -> Seq<Seq<u64>> {
        self.scheduled_entering_times@.map_values(|l: Lane| l@)
    }

    /// Completion time, the mathematical value.
    pub closed spec fn spec_t_last(&self) -> u64 {
        self.t_last
    }

    /// Completion time of the whole merge: the last assigned entering time.
    pub fn t_last(&self) -> (r: u64)
        ensures
            r == self.spec_t_last(),
    {
        self.t_last
    }

    /// The assigned entering times, one vector per lane.
    pub fn scheduled_entering_times(&self) -> (r: Vec<Vec<u64>>)
        ensures
            r@.len() == self.times().len(),
            forall|k: int| 0 <= k < r@.len() ==> #[trigger] r@[k]@ == self.times()[k],
    {
        let mut r: Vec<Vec<u64>> = Vec::new();
        let mut k: usize = 0;
        while k < self.scheduled_entering_times.len()
            invariant
                k <= self.scheduled_entering_times.len(),
                self.times().len() == self.scheduled_entering_times@.len(),
                r@.len() == k,
                forall|m: int| 0 <= m < k ==> #[trigger] r@[m]@ == self.times()[m],
            decreases self.scheduled_entering_times.len() - k,
        {
            r.push(crate::traffic_gen::copy_times(self.scheduled_entering_times[k].times()));
            k = k + 1;
        }
        r
    }

    /// Wrap raw per-lane time vectors into a `Schedule`, deriving the
    /// completion time as the largest per-lane final entering time.
    pub(crate) fn from_scheuled_times(scheduled_entering_times: Vec<Vec<u64>>) -> (r: Schedule)
        ensures
            r.times().len() == scheduled_entering_times@.len(),
            forall|k: int|
                0 <= k < r.times().len() ==> #[trigger] r.times()[k]
                    == scheduled_entering_times@[k]@,
            r.spec_t_last() as int == max_last(
                scheduled_entering_times@.map_values(|v: Vec<u64>| v@),
            ),
    {
        let ghost all: Seq<Seq<u64>> = scheduled_entering_times@.map_values(|v: Vec<u64>| v@);
        let mut t_last: u64 = 0;
        let mut k: usize = 0;
        while k < scheduled_entering_times.len()
            invariant
                k <= scheduled_entering_times.len(),
                all == scheduled_entering_times@.map_values(|v: Vec<u64>| v@),
                t_last as int == max_last(all.take(k as int)),
            decreases scheduled_entering_times.len() - k,
        {
            let lane = &scheduled_entering_times[k];
            let last: u64 = if lane.len() > 0 {
                lane[lane.len() - 1]
            } else {
                0
            };
            proof {
                assert(all.take(k + 1).drop_last() =~= all.take(k as int));
                assert(all.take(k + 1).last() == all[k as int]);
                assert(last as int == last_or0(as_ints(all[k as int])));
            }
            t_last = time_max(t_last, last);
            k = k + 1;
        }
        proof {
            assert(all.take(all.len() as int) =~= all);
        }
        let mut lanes: Vec<Lane> = Vec::new();
        let ghost mut m: int = 0;
        let mut rest = scheduled_entering_times;
        // move the vectors into `Lane`s, front to back
        let ghost n = all.len();
        while rest.len() > 0
            invariant
                m + rest@.len() == n,
                all.len() == n,
                forall|q: int| 0 <= q < rest@.len() ==> #[trigger] rest@[q]@ == all[m + q],
                lanes@.len() == m,
                forall|q: int| 0 <= q < m ==> #[trigger] lanes@[q]@ == all[q],
            decreases rest.len(),
        {
            let v = rest.remove(0);
            lanes.push(Lane::new(v));
            proof {
                m = m + 1;
            }
        }
        let r = Schedule { scheduled_entering_times: lanes, t_last };
        proof {
            assert(r.times() =~= all);
        }
        r
    }
}

} // verus!

verus! {

impl Schedule {
    /// Build the schedule that a merge order determines: walk the order,
    /// give each named vehicle the later of its arrival time and the
    /// earliest time the previous merge's headway allows, and derive the
    /// completion time.
    pub fn from_order(order: &Vec<usize>, traffic: &Traffic, para: &Parameters) -> (r: Schedule)
        requires
            traffic@.len() >= 2,
            para.valid(),
            valid_order(order@, traffic@[0].len(), traffic@[1].len()),
            fits(traffic@[0], traffic@[1], *para),
        ensures
            matches_order(r, order@, traffic@[0], traffic@[1], *para),
    {
        let a = traffic.lane(0);
        let b = traffic.lane(1);
        let alpha = a.len();
        let beta = b.len();
        let n = order.len();
        let ghost o = order@;
        let ghost av = a@;
        let ghost bv = b@;
        let ghost maxab: int = max_i(max_elem(av), max_elem(bv));
        let ghost wm: int = wmax(*para) as int;
        proof {
            lemma_cnt_total(o);
            assert(n == alpha + beta);
            lemma_max_elem_bound(av);
            lemma_max_elem_bound(bv);
            assert(o.skip(0) =~= o);
            assert(o.take(0) =~= Seq::<usize>::empty());
        }
        let mut sa = zeros(alpha);
        let mut sb = zeros(beta);
        let mut i: usize = 0;
        let mut j: usize = 0;
        let mut eet: u64 = 0;
        let mut k: usize = 0;
        let ghost mut pl: usize = LANE_A;
        let ghost mut tp: int = start_tp(*para);
        proof {
            assert(as_ints(sa@.take(0)) =~= Seq::<int>::empty());
            assert(as_ints(sb@.take(0)) =~= Seq::<int>::empty());
            assert(Seq::<int>::empty() + lane_times(o, av, bv, *para, 0, 0, LANE_A, tp, LANE_A)
                =~= lane_times(o, av, bv, *para, 0, 0, LANE_A, tp, LANE_A));
            assert(Seq::<int>::empty() + lane_times(o, av, bv, *para, 0, 0, LANE_A, tp, LANE_B)
                =~= lane_times(o, av, bv, *para, 0, 0, LANE_A, tp, LANE_B));
        }
        while k < n
            invariant
                o == order@,
                av == a@,
                bv == b@,
                n == order@.len(),
                n == alpha + beta,
                alpha == av.len(),
                beta == bv.len(),
                o.len() == n,
                valid_order(o, alpha as nat, beta as nat),
                para.valid(),
                fits(av, bv, *para),
                maxab == max_i(max_elem(av), max_elem(bv)),
                wm == wmax(*para) as int,
                k <= n,
                i == cnt(o.take(k as int), LANE_A),
                j == cnt(o.take(k as int), LANE_B),
                i <= alpha,
                j <= beta,
                sa@.len() == alpha,
                sb@.len() == beta,
                sched_times(o, av, bv, *para, LANE_A) == as_ints(sa@.take(i as int))
                    + lane_times(o.skip(k as int), av, bv, *para, i as nat, j as nat, pl, tp, LANE_A),
                sched_times(o, av, bv, *para, LANE_B) == as_ints(sb@.take(j as int))
                    + lane_times(o.skip(k as int), av, bv, *para, i as nat, j as nat, pl, tp, LANE_B),
                k == 0 ==> eet == 0 && pl == LANE_A && tp == start_tp(*para),
                1 <= k < n ==> pl == o[k - 1] && eet as int == tp + gap(*para, pl == o[k as int]),
                k >= 1 ==> 0 <= tp <= maxab + k * wm,
            decreases n - k,
        {
            let l = order[k];
            let ghost old_i = i as int;
            let ghost old_j = j as int;
            proof {
                assert(valid_label(o[k as int]));
                lemma_skip_skip(o, k as int);
                lemma_cnt_take_succ(o, LANE_A, k as int);
                lemma_cnt_take_succ(o, LANE_B, k as int);
                lemma_cnt_split(o, LANE_A, k as int);
                lemma_cnt_split(o, LANE_B, k as int);
                lemma_max_elem_bound(av);
                lemma_max_elem_bound(bv);
                // one headway per merge keeps every value representable
                lemma_mul_le(k + 1, n as int, wm);
                lemma_mul_le(n as int, n + 4, wm);
                assert((n + 4) * (wmax(*para) as int) == (n + 4) * wm);
                assert(maxab + (n + 4) * wm <= u64::MAX);
                lemma_mul_dist(k as int, wm);
                lemma_mul_dist(k + 1, wm);
                lemma_mul_le(k + 2, n + 4, wm);
                if k >= 1 {
                    lemma_mul_le(k as int, k + 1, wm);
                }
            }
            let arr: u64 = if l == LANE_A {
                proof {
                    assert(cnt(o.skip(k as int), LANE_A) >= 1);
                }
                a[i]
            } else {
                proof {
                    assert(cnt(o.skip(k as int), LANE_B) >= 1);
                }
                b[j]
            };
            let t = time_max(arr, eet);
            proof {
                // the computed time is the simulated time for position k
                assert(arr as int <= maxab);
                if k == 0 {
                    assert(t as int == max_i(arr as int, tp + gap(*para, pl == o[0])));
                } else {
                    assert(t as int == max_i(arr as int, tp + gap(*para, pl == o[k as int])));
                }
                assert(t as int <= maxab + (k + 1) * wm);
            }
            let ghost head_t: int = t as int;
            let ghost sa_pre = sa@;
            let ghost sb_pre = sb@;
            if l == LANE_A {
                sa.set(i, t);
                i = i + 1;
            } else {
                sb.set(j, t);
                j = j + 1;
            }
            proof {
                let rest_a = lane_times(
                    o.skip(k + 1),
                    av,
                    bv,
                    *para,
                    i as nat,
                    j as nat,
                    o[k as int],
                    head_t,
                    LANE_A,
                );
                let rest_b = lane_times(
                    o.skip(k + 1),
                    av,
                    bv,
                    *para,
                    i as nat,
                    j as nat,
                    o[k as int],
                    head_t,
                    LANE_B,
                );
                if o[k as int] == LANE_A {
                    assert(lane_times(
                        o.skip(k as int),
                        av,
                        bv,
                        *para,
                        old_i as nat,
                        old_j as nat,
                        pl,
                        tp,
                        LANE_A,
                    ) == seq![head_t] + rest_a);
                    assert(lane_times(
                        o.skip(k as int),
                        av,
                        bv,
                        *para,
                        old_i as nat,
                        old_j as nat,
                        pl,
                        tp,
                        LANE_B,
                    ) == rest_b);
                    assert(sa@.take(old_i) =~= sa_pre.take(old_i));
                    assert(as_ints(sa@.take(i as int)) =~= as_ints(sa_pre.take(old_i)).push(
                        head_t,
                    ));
                } else {
                    assert(lane_times(
                        o.skip(k as int),
                        av,
                        bv,
                        *para,
                        old_i as nat,
                        old_j as nat,
                        pl,
                        tp,
                        LANE_B,
                    ) == seq![head_t] + rest_b);
                    assert(lane_times(
                        o.skip(k as int),
                        av,
                        bv,
                        *para,
                        old_i as nat,
                        old_j as nat,
                        pl,
                        tp,
                        LANE_A,
                    ) == rest_a);
                    assert(sb@.take(old_j) =~= sb_pre.take(old_j));
                    assert(as_ints(sb@.take(j as int)) =~= as_ints(sb_pre.take(old_j)).push(
                        head_t,
                    ));
                }
                assert(as_ints(sa@.take(i as int)) + rest_a =~= sched_times(
                    o,
                    av,
                    bv,
                    *para,
                    LANE_A,
                ));
                assert(as_ints(sb@.take(j as int)) + rest_b =~= sched_times(
                    o,
                    av,
                    bv,
                    *para,
                    LANE_B,
                ));
            }
            if k + 1 < n {
                let nl = order[k + 1];
                eet = t + (if l == nl {
                    para.w_e
                } else {
                    para.w_p
                });
            }
            proof {
                pl = o[k as int];
                tp = head_t;
            }
            k = k + 1;
        }
        proof {
            assert(o.take(n as int) =~= o);
            assert(o.skip(n as int) =~= Seq::<usize>::empty());
            assert(sa@.take(alpha as int) =~= sa@);
            assert(sb@.take(beta as int) =~= sb@);
        }
        let mut both: Vec<Vec<u64>> = Vec::new();
        both.push(sa);
        both.push(sb);
        let r = Schedule::from_scheuled_times(both);
        proof {
            let ghost all = both@.map_values(|v: Vec<u64>| v@);
            assert(all.len() == 2);
            assert(all.drop_last() =~= seq![all[0]]);
            assert(seq![all[0]].drop_last() =~= Seq::<Seq<u64>>::empty());
            if all[0].len() > 0 {
                assert(as_ints(all[0])[all[0].len() - 1] == all[0][all[0].len() - 1] as int);
            }
            assert(last_or0(as_ints(all[0])) >= 0);
            let lx = last_or0(as_ints(all[0]));
            let ly = last_or0(as_ints(all[1]));
            assert(all.last() == all[1]);
            assert(seq![all[0]].last() == all[0]);
            assert(max_last(Seq::<Seq<u64>>::empty()) == 0);
            assert(max_last(seq![all[0]]) == max_i(0, lx));
            assert(max_last(all) == max_i(max_last(all.drop_last()), ly));
            assert(max_last(all) == max_i(max_i(0, lx), ly));
            assert(max_last(all) == max_i(lx, ly));
        }
        r
    }
}

} // verus!

verus! {

impl Schedule {
    /// Recover the merge order behind a schedule: repeatedly emit the lane
    /// whose next assigned entering time is earlier, lane A on ties — the
    /// order a stable sort of all (time, lane) pairs by time would give.
    pub fn to_order(self) -> (r: Vec<usize>)
        requires
            self.times().len() == 2,
        ensures
            r@ == merge_order_spec(as_ints(self.times()[0]), as_ints(self.times()[1])),
    {
        let ta = self.scheduled_entering_times[0].times();
        let tb = self.scheduled_entering_times[1].times();
        let ghost sx = as_ints(ta@);
        let ghost sy = as_ints(tb@);
        proof {
            assert(sx.skip(0) =~= sx);
            assert(sy.skip(0) =~= sy);
            assert(Seq::<usize>::empty() + merge_order_spec(sx, sy) =~= merge_order_spec(sx, sy));
        }
        let mut r: Vec<usize> = Vec::new();
        let mut i: usize = 0;
        let mut j: usize = 0;
        while i < ta.len() || j < tb.len()
            invariant
                sx == as_ints(ta@),
                sy == as_ints(tb@),
                sx == as_ints(self.times()[0]),
                sy == as_ints(self.times()[1]),
                i <= ta.len(),
                j <= tb.len(),
                sx.len() == ta.len(),
                sy.len() == tb.len(),
                merge_order_spec(sx, sy) == r@ + merge_order_spec(
                    sx.skip(i as int),
                    sy.skip(j as int),
                ),
            decreases ta.len() - i + tb.len() - j,
        {
            let ghost u = sx.skip(i as int);
            let ghost v = sy.skip(j as int);
            let ghost r_pre = r@;
            if i < ta.len() && (j == tb.len() || ta[i] <= tb[j]) {
                proof {
                    lemma_skip_skip(sx, i as int);
                    assert(u[0] == sx[i as int] && sx[i as int] == ta@[i as int] as int);
                    if j < tb.len() {
                        assert(v[0] == sy[j as int] && sy[j as int] == tb@[j as int] as int);
                    }
                    assert(merge_order_spec(u, v) == seq![LANE_A] + merge_order_spec(
                        u.skip(1),
                        v,
                    ));
                }
                r.push(LANE_A);
                i = i + 1;
                proof {
                    assert(r@ + merge_order_spec(sx.skip(i as int), v) =~= r_pre + (seq![LANE_A]
                        + merge_order_spec(sx.skip(i as int), v)));
                }
            } else {
                proof {
                    lemma_skip_skip(sy, j as int);
                    assert(v[0] == sy[j as int] && sy[j as int] == tb@[j as int] as int);
                    if i < ta.len() {
                        assert(u[0] == sx[i as int] && sx[i as int] == ta@[i as int] as int);
                    } else {
                        assert(u =~= Seq::<int>::empty());
                    }
                    assert(merge_order_spec(u, v) == seq![LANE_B] + merge_order_spec(
                        u,
                        v.skip(1),
                    ));
                }
                r.push(LANE_B);
                j = j + 1;
                proof {
                    assert(r@ + merge_order_spec(u, sy.skip(j as int)) =~= r_pre + (seq![LANE_B]
                        + merge_order_spec(u, sy.skip(j as int))));
                }
            }
        }
        proof {
            assert(sx.skip(i as int) =~= Seq::<int>::empty());
            assert(sy.skip(j as int) =~= Seq::<int>::empty());
            assert(r@ + Seq::<usize>::empty() =~= r@);
        }
        r
    }
}

/// One scheduling policy: first-come-first-served, exact dynamic
/// programming, or simulated annealing.
pub trait Scheduler {
    /// Short display name of the policy.
    fn method(&self) -> (r: String);

    /// Compute a schedule for the first two lanes of `traffic`.  `None`
    /// comes back exactly when fewer than two lanes are present.  Every
    /// schedule produced is the forward simulation of some valid merge
    /// order over the given arrivals, so no vehicle enters before it
    /// arrives and consecutive merges keep their headways.
    fn solve(&self, traffic: &Traffic, para: &Parameters) -> (r: Option<Schedule>)
        requires
            para.valid(),
            traffic@.len() >= 2 ==> fits(traffic@[0], traffic@[1], *para),
        ensures
            r is Some <==> traffic@.len() >= 2,
            r is Some ==> exists|o: Seq<usize>|
                valid_order(o, traffic@[0].len(), traffic@[1].len()) && matches_order(
                    r->Some_0,
                    o,
                    traffic@[0],
                    traffic@[1],
                    *para,
                ),
    ;
}

} // verus!
