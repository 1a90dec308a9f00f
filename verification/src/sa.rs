use vstd::prelude::*;

use crate::order::LANE_A;
use crate::order::LANE_B;
use crate::order::as_ints;
use crate::order::cnt;
use crate::order::fits;
use crate::order::lemma_lane_ge_arrival;
use crate::order::lemma_lane_len;
use crate::order::sched_times;
use crate::order::start_tp;
use crate::order::valid_label;
use crate::order::valid_order;
use crate::order::order_cost;
use crate::order::order_makespan;
use crate::order::order_max_delay;
use crate::dp::DP;
use crate::laws::lemma_order_roundtrip;
use crate::rng::rand_below;
use crate::rng::seeded_rng;
use crate::scheduler::Schedule;
use crate::scheduler::Scheduler;
use crate::scheduler::matches_order;
use crate::traffic_gen::Parameters;
use crate::traffic_gen::Traffic;
use crate::traffic_gen::max_delay_all;

verus! {

/// No cost exceeds this: each weight times the largest time value, twice.
pub open spec fn cost_cap() -> int {
    2 * (u32::MAX as int) * (u64::MAX as int)
}

/// Evaluate a merge order: simulate its schedule and combine the largest
/// delay and the completion time with the given weights.
#[verifier::loop_isolation(false)]
fn order_cost_exec(ord: &Vec<usize>, traffic: &Traffic, para: &Parameters, w1: u32, w2: u32) -> (r:
    u128)
    requires
        traffic@.len() >= 2,
        para.valid(),
        valid_order(ord@, traffic@[0].len(), traffic@[1].len()),
        fits(traffic@[0], traffic@[1], *para),
    ensures
        r as int == order_cost(ord@, traffic@[0], traffic@[1], *para, w1, w2),
        r as int <= cost_cap(),
{
    let ghost av = traffic@[0];
    let ghost bv = traffic@[1];
    let ghost o = ord@;
    let schd = Schedule::from_order(ord, traffic, para);
    proof {
        lemma_lane_ge_arrival(o, av, bv, *para, 0, 0, LANE_A, start_tp(*para));
        lemma_lane_len(o, av, bv, *para, 0, 0, LANE_A, start_tp(*para), LANE_A);
        lemma_lane_len(o, av, bv, *para, 0, 0, LANE_A, start_tp(*para), LANE_B);
        let sv = schd.times();
        assert forall|l: int, k: int|
            0 <= l < traffic@.len() && l < sv.len() && 0 <= k < traffic@[l].len() && k
                < sv[l].len() implies #[trigger] sv[l][k] >= traffic@[l][k] by {
            if l == 0 {
                assert(as_ints(sv[0])[k] == sched_times(o, av, bv, *para, LANE_A)[k]);
                assert(sched_times(o, av, bv, *para, LANE_A)[k] >= av[0 + k]);
            } else if l == 1 {
                assert(as_ints(sv[1])[k] == sched_times(o, av, bv, *para, LANE_B)[k]);
                assert(sched_times(o, av, bv, *para, LANE_B)[k] >= bv[0 + k]);
            }
        }
    }
    let md = traffic.max_delay_time(&schd);
    let tl = schd.t_last();
    proof {
        let ev = traffic@;
        let sv = schd.times();
        crate::traffic_gen::lemma_mda_unfold(ev, sv, 0);
        crate::traffic_gen::lemma_mda_unfold(ev, sv, 1);
        assert(sv.skip(2) =~= Seq::<Seq<u64>>::empty());
        assert(max_delay_all(ev.skip(2), sv.skip(2)) == 0);
        assert(as_ints(sv[0]) == sched_times(o, av, bv, *para, LANE_A));
        assert(as_ints(sv[1]) == sched_times(o, av, bv, *para, LANE_B));
        assert(md as int == order_max_delay(o, av, bv, *para));
        assert(tl as int == order_makespan(o, av, bv, *para));
        assert((w1 as int) * (md as int) + (w2 as int) * (tl as int) <= cost_cap())
            by (nonlinear_arith)
            requires
                0 <= w1 as int <= u32::MAX as int,
                0 <= w2 as int <= u32::MAX as int,
                0 <= md as int <= u64::MAX as int,
                0 <= tl as int <= u64::MAX as int,
        ;
    }
    let cost: u128 = (w1 as u128) * (md as u128) + (w2 as u128) * (tl as u128);
    cost
}

/// Halve an integer `k` times, rounding toward zero each time.
pub open spec fn halve_n(v: int, k: nat) -> int
    decreases k,
{
    if k == 0 {
        v
    } else {
        halve_n(v, (k - 1) as nat) / 2
    }
}

/// The annealing acceptance threshold on the unit scale 65536: an
/// integer stand-in for `65536 * exp(-dc / temp)`, computed as
/// `2^(-z)` with `z = (dc / temp) * log2(e)` in 1/32768 steps, the
/// fractional part taken along the chord from 1 to 1/2.
pub open spec fn accept_threshold_spec(dc: int, temp: int) -> int
    recommends
        temp >= 1,
{
    let z15 = (dc * 47274) / temp;
    if z15 >= 524288 {
        0
    } else {
        halve_n(65536 - (z15 % 32768), (z15 / 32768) as nat)
    }
}

/// Executable form of the acceptance threshold.
#[verifier::loop_isolation(false)]
fn accept_threshold(dc: u128, temp: u128) -> (r: u64)
    requires
        temp >= 1,
        dc as int <= 10 * cost_cap(),
    ensures
        r as int == accept_threshold_spec(dc as int, temp as int),
{
    proof {
        assert((dc as int) * 47274 <= u128::MAX) by (nonlinear_arith)
            requires
                0 <= dc as int <= 10 * (2 * (u32::MAX as int) * (u64::MAX as int)),
        ;
    }
    let z15: u128 = (dc * 47274) / temp;
    if z15 >= 524288 {
        0
    } else {
        let zq: u64 = (z15 / 32768) as u64;
        let zf: u64 = (z15 % 32768) as u64;
        let mut v: u64 = 65536 - zf;
        let mut k: u64 = 0;
        while k < zq
            invariant
                k <= zq,
                zq < 16,
                v as int == halve_n(65536 - zf as int, k as nat),
                v <= 65536,
            decreases zq - k,
        {
            v = v / 2;
            k = k + 1;
        }
        v
    }
}

} // verus!

verus! {

/// Copy of a label vector, element for element.
fn copy_labels(v: &Vec<usize>) -> (r: Vec<usize>)
    ensures
        r@ == v@,
{
    let mut r: Vec<usize> = Vec::new();
    let mut k: usize = 0;
    while k < v.len()
        invariant
            k <= v.len(),
            r@ == v@.take(k as int),
        decreases v.len() - k,
    {
        r.push(v[k]);
        k = k + 1;
        proof {
            assert(r@ =~= v@.take(k as int));
        }
    }
    proof {
        assert(r@ =~= v@);
    }
    r
}

/// Exchange the labels at two positions.
fn swap_labels(v: &mut Vec<usize>, x: usize, y: usize)
    requires
        x < old(v)@.len(),
        y < old(v)@.len(),
    ensures
        final(v)@ == old(v)@.update(x as int, old(v)@[y as int]).update(y as int, old(v)@[x as int]),
{
    let tx = v[x];
    let ty = v[y];
    v.set(x, ty);
    v.set(y, tx);
}

proof fn lemma_cnt_update(o: Seq<usize>, idx: int, v: usize, lane: usize)
    requires
        0 <= idx < o.len(),
    ensures
        cnt(o.update(idx, v), lane) == cnt(o, lane) - (if o[idx] == lane {
            1int
        } else {
            0int
        }) + (if v == lane {
            1int
        } else {
            0int
        }),
    decreases o.len(),
{
    if idx == 0 {
        assert(o.update(0, v)[0] == v);
        assert(o.update(0, v).skip(1) =~= o.skip(1));
    } else {
        lemma_cnt_update(o.skip(1), idx - 1, v, lane);
        assert(o.update(idx, v).skip(1) =~= o.skip(1).update(idx - 1, v));
        assert(o.update(idx, v)[0] == o[0]);
    }
}

/// Swapping two labels keeps a merge order valid: the label counts are
/// unchanged.
proof fn lemma_swap_keeps_order(o: Seq<usize>, x: int, y: int, alpha: nat, beta: nat)
    requires
        valid_order(o, alpha, beta),
        0 <= x < o.len(),
        0 <= y < o.len(),
    ensures
        valid_order(o.update(x, o[y]).update(y, o[x]), alpha, beta),
{
    let o1 = o.update(x, o[y]);
    let o2 = o1.update(y, o[x]);
    lemma_cnt_update(o, x, o[y], LANE_A);
    lemma_cnt_update(o, x, o[y], LANE_B);
    lemma_cnt_update(o1, y, o[x], LANE_A);
    lemma_cnt_update(o1, y, o[x], LANE_B);
    assert(forall|k: int| 0 <= k < o2.len() ==> valid_label(#[trigger] o2[k]));
}

/// Refine a merge order by simulated annealing: repeatedly swap two
/// random positions, keep improvements, sometimes keep a worse order
/// while the temperature is high, and remember the best order ever
/// seen.  The temperature starts at ten times the seed's cost and
/// halves every iteration; the loop ends when it reaches zero or after
/// the iteration budget.  The best order never costs more than the
/// seed, and it schedules the same vehicles.
#[verifier::loop_isolation(false)]
pub fn anneal(
    start: Vec<usize>,
    traffic: &Traffic,
    para: &Parameters,
    w1: u32,
    w2: u32,
    seed: u64,
) -> (r: Vec<usize>)
    requires
        traffic@.len() >= 2,
        para.valid(),
        valid_order(start@, traffic@[0].len(), traffic@[1].len()),
        fits(traffic@[0], traffic@[1], *para),
    ensures
        valid_order(r@, traffic@[0].len(), traffic@[1].len()),
        order_cost(r@, traffic@[0], traffic@[1], *para, w1, w2) <= order_cost(
            start@,
            traffic@[0],
            traffic@[1],
            *para,
            w1,
            w2,
        ),
{
    let ghost av = traffic@[0];
    let ghost bv = traffic@[1];
    let n = start.len();
    let mut order = start;
    let cost0 = order_cost_exec(&order, traffic, para, w1, w2);
    let mut best_cost = cost0;
    let mut last_cost = cost0;
    let mut best_order = copy_labels(&order);
    if n == 0 {
        return best_order;
    }
    let mut rng = seeded_rng(seed);
    let mut temp: u128 = 10 * cost0;
    let mut iter: u64 = 0;
    let mut cooled = false;
    while iter < 10000 && !cooled
        invariant
            n == order@.len(),
            n >= 1,
            valid_order(order@, av.len(), bv.len()),
            valid_order(best_order@, av.len(), bv.len()),
            best_cost as int == order_cost(best_order@, av, bv, *para, w1, w2),
            best_cost <= cost0,
            iter <= 10000,
        decreases 10000 - iter,
    {
        let x = rand_below(&mut rng, n);
        let y = rand_below(&mut rng, n);
        let ghost before = order@;
        swap_labels(&mut order, x, y);
        proof {
            lemma_swap_keeps_order(before, x as int, y as int, av.len(), bv.len());
        }
        let cost = order_cost_exec(&order, traffic, para, w1, w2);
        if cost <= best_cost {
            best_cost = cost;
            best_order = copy_labels(&order);
        }
        if cost <= last_cost {
            last_cost = cost;
        } else {
            let accept: bool = if temp >= 1 {
                let dc = cost - last_cost;
                let thr = accept_threshold(dc, temp);
                let draw = rand_below(&mut rng, 65536);
                (draw as u64) < thr
            } else {
                false
            };
            if !accept {
                // revert the swap
                let ghost mid = order@;
                swap_labels(&mut order, x, y);
                proof {
                    lemma_swap_keeps_order(mid, x as int, y as int, av.len(), bv.len());
                }
            }
        }
        temp = temp / 2;
        if temp == 0 {
            cooled = true;
        }
        iter = iter + 1;
    }
    best_order
}

/// The stochastic refiner: seeded with the exact scheduler's merge
/// order, it explores neighbouring orders by random swaps under a
/// halving temperature, and returns the best schedule it ever saw.
pub struct SimulationAnnealing {
    w1: u32,
    w2: u32,
    seed: u64,
}

impl SimulationAnnealing {
    /// Weight of the largest delay in the objective.
    pub closed spec fn weight1(&self) -> u32 {
        self.w1
    }

    /// Weight of the completion time in the objective.
    pub closed spec fn weight2(&self) -> u32 {
        self.w2
    }

    /// Seed of the injected random generator.
    pub closed spec fn spec_seed(&self) -> u64 {
        self.seed
    }

    /// A refiner with the given objective weights and a fixed default
    /// seed, so repeated runs reproduce the same schedules.
    pub fn new(w1: u32, w2: u32) -> (r: Self)
        ensures
            r.weight1() == w1,
            r.weight2() == w2,
            r.spec_seed() == 0,
    {
        SimulationAnnealing { w1, w2, seed: 0 }
    }

    /// A refiner with an explicit random seed.
    pub fn with_seed(w1: u32, w2: u32, seed: u64) -> (r: Self)
        ensures
            r.weight1() == w1,
            r.weight2() == w2,
            r.spec_seed() == seed,
    {
        SimulationAnnealing { w1, w2, seed }
    }
}

impl Scheduler for SimulationAnnealing {
    fn method(&self) -> (r: String)
        ensures
            r@ == "Simulation Annealing"@,
    {
        String::from_str("Simulation Annealing")
    }

    fn solve(&self, traffic: &Traffic, para: &Parameters) -> (r: Option<Schedule>)
        ensures
            r is Some ==> exists|ob: Seq<usize>, os: Seq<usize>|
                {
                    &&& valid_order(ob, traffic@[0].len(), traffic@[1].len())
                    &&& matches_order(r->Some_0, ob, traffic@[0], traffic@[1], *para)
                    &&& valid_order(os, traffic@[0].len(), traffic@[1].len())
                    &&& order_makespan(os, traffic@[0], traffic@[1], *para)
                        == crate::dp::dp_makespan(traffic@[0], traffic@[1], *para)
                    &&& order_cost(ob, traffic@[0], traffic@[1], *para, self.weight1(),
                    self.weight2()) <= order_cost(
                        os,
                        traffic@[0],
                        traffic@[1],
                        *para,
                        self.weight1(),
                        self.weight2(),
                    )
                },
    {
        if traffic.lane_count() < 2 {
            return None;
        }
        let ghost av = traffic@[0];
        let ghost bv = traffic@[1];
        let dp = DP;
        let s0 = dp.solve(traffic, para).unwrap();
        let ghost o_dp = choose|o: Seq<usize>|
            valid_order(o, av.len(), bv.len()) && matches_order(s0, o, av, bv, *para);
        proof {
            lemma_order_roundtrip(o_dp, av, bv, *para, 0, 0, LANE_A, start_tp(*para));
        }
        let ord = s0.to_order();
        proof {
            assert(ord@ == o_dp);
        }
        let best = anneal(ord, traffic, para, self.w1, self.w2, self.seed);
        let schd = Schedule::from_order(&best, traffic, para);
        proof {
            assert(valid_order(best@, av.len(), bv.len()) && matches_order(
                schd,
                best@,
                av,
                bv,
                *para,
            ));
            // the seed order carries the optimal completion time, and the
            // search never returned anything costlier than the seed
            assert(order_makespan(o_dp, av, bv, *para) == crate::dp::dp_makespan(av, bv, *para));
            assert(valid_order(o_dp, av.len(), bv.len()) && order_cost(
                best@,
                av,
                bv,
                *para,
                self.w1,
                self.w2,
            ) <= order_cost(o_dp, av, bv, *para, self.w1, self.w2));
        }
        Some(schd)
    }
}

} // verus!
