use vstd::prelude::*;

use crate::order::LANE_A;
use crate::order::LANE_B;
use crate::order::greedy_order;
use crate::order::lemma_greedy_valid;
use crate::order::lemma_skip_skip;
use crate::order::valid_order;
use crate::scheduler::Schedule;
use crate::scheduler::Scheduler;
use crate::scheduler::matches_order;
use crate::traffic_gen::Parameters;
use crate::traffic_gen::Traffic;

verus! {

/// The greedy first-come-first-served baseline: vehicles merge in arrival
/// order (lane A on ties), each entering as early as the headway after the
/// previous merge allows.  It respects all constraints but optimizes
/// nothing.
pub struct FCFS;

impl Scheduler for FCFS {
    fn method(&self) -> (r: String)
        ensures
            r@ == "FCFS"@,
    {
        String::from_str("FCFS")
    }

    fn solve(&self, traffic: &Traffic, para: &Parameters) -> (r: Option<Schedule>)
        ensures
            r is Some ==> matches_order(
                r->Some_0,
                greedy_order(traffic@[0], traffic@[1]),
                traffic@[0],
                traffic@[1],
                *para,
            ),
    {
        if traffic.lane_count() < 2 {
            return None;
        }
        let a = traffic.lane(0);
        let b = traffic.lane(1);
        let ghost av = a@;
        let ghost bv = b@;
        proof {
            assert(av.skip(0) =~= av);
            assert(bv.skip(0) =~= bv);
            assert(Seq::<usize>::empty() + greedy_order(av, bv) =~= greedy_order(av, bv));
        }
        let mut ord: Vec<usize> = Vec::new();
        let mut i: usize = 0;
        let mut j: usize = 0;
        while i < a.len() || j < b.len()
            invariant
                av == a@,
                bv == b@,
                i <= av.len(),
                j <= bv.len(),
                greedy_order(av, bv) == ord@ + greedy_order(av.skip(i as int), bv.skip(j as int)),
            decreases av.len() - i + bv.len() - j,
        {
            let ghost u = av.skip(i as int);
            let ghost v = bv.skip(j as int);
            let ghost ord_pre = ord@;
            if i < a.len() && (j == b.len() || a[i] <= b[j]) {
                proof {
                    lemma_skip_skip(av, i as int);
                    assert(u[0] == av[i as int]);
                    if j < b.len() {
                        assert(v[0] == bv[j as int]);
                    }
                    assert(greedy_order(u, v) == seq![LANE_A] + greedy_order(u.skip(1), v));
                }
                ord.push(LANE_A);
                i = i + 1;
                proof {
                    assert(ord@ + greedy_order(av.skip(i as int), v) =~= ord_pre + (seq![LANE_A]
                        + greedy_order(av.skip(i as int), v)));
                }
            } else {
                proof {
                    lemma_skip_skip(bv, j as int);
                    assert(v[0] == bv[j as int]);
                    if i < a.len() {
                        assert(u[0] == av[i as int]);
                    } else {
                        assert(u =~= Seq::<u64>::empty());
                    }
                    assert(greedy_order(u, v) == seq![LANE_B] + greedy_order(u, v.skip(1)));
                }
                ord.push(LANE_B);
                j = j + 1;
                proof {
                    assert(ord@ + greedy_order(u, bv.skip(j as int)) =~= ord_pre + (seq![LANE_B]
                        + greedy_order(u, bv.skip(j as int))));
                }
            }
        }
        proof {
            assert(av.skip(i as int) =~= Seq::<u64>::empty());
            assert(bv.skip(j as int) =~= Seq::<u64>::empty());
            assert(greedy_order(av.skip(i as int), bv.skip(j as int)) == Seq::<usize>::empty());
            assert(ord@ + Seq::<usize>::empty() =~= ord@);
            assert(ord@ == greedy_order(av, bv));
            lemma_greedy_valid(av, bv);
        }
        let schd = Schedule::from_order(&ord, traffic, para);
        proof {
            assert(valid_order(greedy_order(av, bv), av.len(), bv.len()) && matches_order(
                schd,
                greedy_order(av, bv),
                av,
                bv,
                *para,
            ));
        }
        Some(schd)
    }
}

} // verus!
