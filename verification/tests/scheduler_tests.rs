use merge_scheduler::dp::DP;
use merge_scheduler::fcfs::FCFS;
use merge_scheduler::sa::SimulationAnnealing;
use merge_scheduler::sa::anneal;
use merge_scheduler::scheduler::Schedule;
use merge_scheduler::scheduler::Scheduler;
use merge_scheduler::traffic_gen::Lane;
use merge_scheduler::traffic_gen::Parameters;
use merge_scheduler::traffic_gen::Traffic;

fn traffic_of(a: Vec<u64>, b: Vec<u64>) -> Traffic {
    Traffic::new(vec![Lane::new(a), Lane::new(b)])
}

fn params(w_e: u64, w_p: u64) -> Parameters {
    Parameters { w_p, w_e }
}

/// Plain reference simulation of a merge order, independent of the library.
fn simulate(order: &[usize], a: &[u64], b: &[u64], w_e: u64, w_p: u64) -> (Vec<u64>, Vec<u64>) {
    let mut sa = vec![0u64; a.len()];
    let mut sb = vec![0u64; b.len()];
    let mut i = 0usize;
    let mut j = 0usize;
    let mut prev_t: u64 = 0;
    let mut started = false;
    let mut prev_lane = 0usize;
    for (k, &l) in order.iter().enumerate() {
        let _ = k;
        let arr = if l == 0 { a[i] } else { b[j] };
        let t = if !started {
            arr
        } else {
            let gap = if prev_lane == l { w_e } else { w_p };
            arr.max(prev_t + gap)
        };
        if l == 0 {
            sa[i] = t;
            i += 1;
        } else {
            sb[j] = t;
            j += 1;
        }
        prev_t = t;
        prev_lane = l;
        started = true;
    }
    (sa, sb)
}

fn makespan(sa: &[u64], sb: &[u64]) -> u64 {
    let la = sa.last().copied().unwrap_or(0);
    let lb = sb.last().copied().unwrap_or(0);
    la.max(lb)
}

fn all_orders(alpha: usize, beta: usize) -> Vec<Vec<usize>> {
    if alpha == 0 && beta == 0 {
        return vec![vec![]];
    }
    let mut out = Vec::new();
    if alpha > 0 {
        for mut rest in all_orders(alpha - 1, beta) {
            rest.insert(0, 0);
            out.push(rest);
        }
    }
    if beta > 0 {
        for mut rest in all_orders(alpha, beta - 1) {
            rest.insert(0, 1);
            out.push(rest);
        }
    }
    out
}

#[test]
fn dp_concrete_scenario() {
    // lane A arrives at 0, 0, 2; lane B at 1; same-lane headway 1, cross-lane 3
    let traffic = traffic_of(vec![0, 0, 2], vec![1]);
    let para = params(1, 3);
    let dp = DP;
    let schd = dp.solve(&traffic, &para).unwrap();
    // best interleaving is A,A,A,B: times 0,1,2 then 2+3=5
    assert_eq!(schd.t_last(), 5);
    let times = schd.scheduled_entering_times();
    assert_eq!(times[0], vec![0, 1, 2]);
    assert_eq!(times[1], vec![5]);
}

#[test]
fn dp_matches_bruteforce_small() {
    let cases: Vec<(Vec<u64>, Vec<u64>, u64, u64)> = vec![
        (vec![0, 0, 2], vec![1], 1, 3),
        (vec![0, 2, 4], vec![0, 2, 4], 1, 3),
        (vec![5, 6], vec![0, 1, 2, 3], 2, 2),
        (vec![0, 0, 0, 0], vec![0, 0, 0], 1, 5),
        (vec![], vec![3, 4], 1, 3),
        (vec![7], vec![], 2, 9),
        (vec![1, 1, 1, 1, 1, 1], vec![1, 1, 1, 1, 1], 1, 2),
        (vec![0, 10, 20], vec![0, 10, 20], 3, 1),
    ];
    for (a, b, w_e, w_p) in cases {
        let traffic = traffic_of(a.clone(), b.clone());
        let para = params(w_e, w_p);
        let dp = DP;
        let schd = dp.solve(&traffic, &para).unwrap();
        let mut best = u64::MAX;
        for order in all_orders(a.len(), b.len()) {
            let (sa, sb) = simulate(&order, &a, &b, w_e, w_p);
            best = best.min(makespan(&sa, &sb));
        }
        if a.is_empty() && b.is_empty() {
            best = 0;
        }
        assert_eq!(schd.t_last(), best, "instance a={:?} b={:?}", a, b);
    }
}

#[test]
fn dp_simulation_consistency() {
    // the schedule rebuilt from the DP order equals the DP schedule itself
    let traffic = traffic_of(vec![0, 3, 3, 9], vec![1, 2, 8]);
    let para = params(2, 3);
    let dp = DP;
    let schd = dp.solve(&traffic, &para).unwrap();
    let t_last = schd.t_last();
    let times = schd.scheduled_entering_times();
    let order = schd.to_order();
    let rebuilt = Schedule::from_order(&order, &traffic, &para);
    assert_eq!(rebuilt.scheduled_entering_times(), times);
    assert_eq!(rebuilt.t_last(), t_last);
}

#[test]
fn fcfs_expected_times() {
    let traffic = traffic_of(vec![0, 0, 2], vec![1]);
    let para = params(1, 3);
    let fcfs = FCFS;
    let schd = fcfs.solve(&traffic, &para).unwrap();
    let times = schd.scheduled_entering_times();
    // order by arrival: A(0), A(0), B(1), A(2): 0, 1, 1+3=4, 4+3=7
    assert_eq!(times[0], vec![0, 1, 7]);
    assert_eq!(times[1], vec![4]);
    assert_eq!(schd.t_last(), 7);
}

#[test]
fn fcfs_tie_prefers_lane_a() {
    let traffic = traffic_of(vec![5], vec![5]);
    let para = params(1, 3);
    let fcfs = FCFS;
    let schd = fcfs.solve(&traffic, &para).unwrap();
    let times = schd.scheduled_entering_times();
    assert_eq!(times[0], vec![5]);
    assert_eq!(times[1], vec![8]);
}

#[test]
fn feasibility_of_all_schedulers() {
    let a = vec![0u64, 1, 5, 5];
    let b = vec![2u64, 3, 4];
    let traffic = traffic_of(a.clone(), b.clone());
    let para = params(2, 4);
    let dp = DP;
    let fcfs = FCFS;
    let sa = SimulationAnnealing::new(50, 50);
    for schd in [
        dp.solve(&traffic, &para).unwrap(),
        fcfs.solve(&traffic, &para).unwrap(),
        sa.solve(&traffic, &para).unwrap(),
    ] {
        let times = schd.scheduled_entering_times();
        // no vehicle enters before it arrives
        for (k, &t) in times[0].iter().enumerate() {
            assert!(t >= a[k]);
        }
        for (k, &t) in times[1].iter().enumerate() {
            assert!(t >= b[k]);
        }
        // consecutive merges keep their headways
        let mut merged: Vec<(u64, usize)> = Vec::new();
        for &t in &times[0] {
            merged.push((t, 0));
        }
        for &t in &times[1] {
            merged.push((t, 1));
        }
        merged.sort();
        for w in merged.windows(2) {
            let gap = if w[0].1 == w[1].1 { 2 } else { 4 };
            assert!(w[1].0 >= w[0].0 + gap);
        }
    }
}

#[test]
fn sa_not_worse_than_dp_seed() {
    let traffic = traffic_of(vec![0, 1, 2, 3, 10], vec![0, 2, 4, 9]);
    let para = params(1, 3);
    let dp = DP;
    let sa = SimulationAnnealing::new(50, 50);
    let dp_schd = dp.solve(&traffic, &para).unwrap();
    let sa_schd = sa.solve(&traffic, &para).unwrap();
    let dp_cost = 50u128 * traffic.max_delay_time(&dp_schd) as u128
        + 50u128 * dp_schd.t_last() as u128;
    let sa_cost = 50u128 * traffic.max_delay_time(&sa_schd) as u128
        + 50u128 * sa_schd.t_last() as u128;
    assert!(sa_cost <= dp_cost);
}

#[test]
fn sa_reproducible_with_same_seed() {
    let para = params(1, 3);
    let t1 = traffic_of(vec![0, 1, 4, 4], vec![2, 3, 5]);
    let s1 = SimulationAnnealing::with_seed(50, 50, 7);
    let s2 = SimulationAnnealing::with_seed(50, 50, 7);
    let r1 = s1.solve(&t1, &para).unwrap();
    let r2 = s2.solve(&t1, &para).unwrap();
    assert_eq!(r1.scheduled_entering_times(), r2.scheduled_entering_times());
    assert_eq!(r1.t_last(), r2.t_last());
}

#[test]
fn anneal_never_worse_than_start() {
    let traffic = traffic_of(vec![0, 5, 9], vec![1, 2]);
    let para = params(1, 3);
    // a deliberately poor starting order: all of lane B first
    let start = vec![1usize, 1, 0, 0, 0];
    let start_s = Schedule::from_order(&start, &traffic, &para);
    let start_cost = 50u128 * traffic.max_delay_time(&start_s) as u128
        + 50u128 * start_s.t_last() as u128;
    let best = anneal(start, &traffic, &para, 50, 50, 13);
    let best_s = Schedule::from_order(&best, &traffic, &para);
    let best_cost = 50u128 * traffic.max_delay_time(&best_s) as u128
        + 50u128 * best_s.t_last() as u128;
    assert!(best_cost <= start_cost);
}

#[test]
fn single_lane_boundary() {
    // the other lane empty: every scheduler degenerates to the
    // running-headway chain assigned[k] = max(arrival[k], assigned[k-1] + w_e)
    let a = vec![0u64, 0, 1, 7, 7];
    let traffic = traffic_of(a.clone(), vec![]);
    let para = params(2, 5);
    let mut chain = Vec::new();
    let mut prev: u64 = 0;
    for (k, &arr) in a.iter().enumerate() {
        let t = if k == 0 { arr } else { arr.max(prev + 2) };
        chain.push(t);
        prev = t;
    }
    let dp = DP;
    let fcfs = FCFS;
    let sa = SimulationAnnealing::new(50, 50);
    for schd in [
        dp.solve(&traffic, &para).unwrap(),
        fcfs.solve(&traffic, &para).unwrap(),
        sa.solve(&traffic, &para).unwrap(),
    ] {
        let times = schd.scheduled_entering_times();
        assert_eq!(times[0], chain);
        assert_eq!(times[1], Vec::<u64>::new());
        assert_eq!(schd.t_last(), *chain.last().unwrap());
    }
}

#[test]
fn missing_lane_gives_no_schedule() {
    let para = params(1, 3);
    let one_lane = Traffic::new(vec![Lane::new(vec![1, 2, 3])]);
    let no_lane = Traffic::new(vec![]);
    let dp = DP;
    let fcfs = FCFS;
    let sa = SimulationAnnealing::new(50, 50);
    assert!(dp.solve(&one_lane, &para).is_none());
    assert!(fcfs.solve(&one_lane, &para).is_none());
    assert!(sa.solve(&one_lane, &para).is_none());
    assert!(dp.solve(&no_lane, &para).is_none());
    assert!(fcfs.solve(&no_lane, &para).is_none());
    assert!(sa.solve(&no_lane, &para).is_none());
}

#[test]
fn empty_both_lanes() {
    let traffic = traffic_of(vec![], vec![]);
    let para = params(1, 3);
    let dp = DP;
    let schd = dp.solve(&traffic, &para).unwrap();
    assert_eq!(schd.t_last(), 0);
    let times = schd.scheduled_entering_times();
    assert!(times[0].is_empty());
    assert!(times[1].is_empty());
}

#[test]
fn method_names() {
    let dp = DP;
    let fcfs = FCFS;
    let sa = SimulationAnnealing::new(1, 1);
    assert_eq!(dp.method(), "DP");
    assert_eq!(fcfs.method(), "FCFS");
    assert_eq!(sa.method(), "Simulation Annealing");
}

#[test]
fn dp_beats_fcfs_when_greedy_is_shortsighted() {
    // serving B between the two A vehicles costs two cross-lane gaps
    let traffic = traffic_of(vec![0, 3], vec![2]);
    let para = params(1, 4);
    let dp = DP;
    let fcfs = FCFS;
    let dp_schd = dp.solve(&traffic, &para).unwrap();
    let fcfs_schd = fcfs.solve(&traffic, &para).unwrap();
    // arrival order A(0), B(2), A(3): 0, max(2,0+4)=4, max(3,4+4)=8
    assert_eq!(fcfs_schd.t_last(), 8);
    // optimal: both A first (0, 3), then B at 3+4=7
    assert_eq!(dp_schd.t_last(), 7);
    assert!(dp_schd.t_last() < fcfs_schd.t_last());
}

#[test]
fn same_lane_headway_may_exceed_cross_lane() {
    // w_same larger than w_cross: alternating lanes is cheapest
    let traffic = traffic_of(vec![0, 0], vec![0, 0]);
    let para = params(10, 1);
    let dp = DP;
    let schd = dp.solve(&traffic, &para).unwrap();
    // alternating lanes at 0, 1, 2, 3
    assert_eq!(schd.t_last(), 3);
}
