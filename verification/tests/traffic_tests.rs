use merge_scheduler::dp::DP;
use merge_scheduler::scheduler::Schedule;
use merge_scheduler::scheduler::Scheduler;
use merge_scheduler::traffic_gen::Lane;
use merge_scheduler::traffic_gen::Parameters;
use merge_scheduler::traffic_gen::Traffic;

#[test]
fn parameters_default_pairing() {
    let para = Parameters::default();
    assert_eq!(para.w_e, 1);
    assert_eq!(para.w_p, 3);
}

#[test]
fn lane_round_trip() {
    let lane = Lane::new(vec![4, 5, 6]);
    assert_eq!(lane.times().as_slice(), &[4, 5, 6]);
}

#[test]
fn earlist_arrival_times_exposes_lanes() {
    let traffic = Traffic::new(vec![Lane::new(vec![1, 2]), Lane::new(vec![3])]);
    let eats = traffic.earlist_arrival_times();
    assert_eq!(eats.len(), 2);
    assert_eq!(eats[0], vec![1, 2]);
    assert_eq!(eats[1], vec![3]);
}

#[test]
fn delay_metrics_exact() {
    let traffic = Traffic::new(vec![Lane::new(vec![0, 0, 2]), Lane::new(vec![1])]);
    let para = Parameters { w_p: 3, w_e: 1 };
    // rebuild the known optimal schedule: A at 0,1,2 and B at 5
    let order = vec![0usize, 0, 0, 1];
    let schd = Schedule::from_order(&order, &traffic, &para);
    let delays = traffic.delay_times(&schd);
    assert_eq!(delays[0], vec![0, 1, 0]);
    assert_eq!(delays[1], vec![4]);
    assert_eq!(traffic.max_delay_time(&schd), 4);
    // lane means: (0+1+0)/3 = 0 and 4/1 = 4; their mean is (0+4)/2 = 2
    assert_eq!(traffic.mean_delay_time(&schd), 2);
}

#[test]
fn max_delay_zero_when_unconstrained() {
    let traffic = Traffic::new(vec![Lane::new(vec![0, 10]), Lane::new(vec![20])]);
    let para = Parameters { w_p: 3, w_e: 1 };
    let dp = DP;
    let schd = dp.solve(&traffic, &para).unwrap();
    assert_eq!(traffic.max_delay_time(&schd), 0);
    assert_eq!(traffic.mean_delay_time(&schd), 0);
    assert_eq!(schd.t_last(), 20);
}

#[test]
fn to_order_reads_merge_sequence() {
    let traffic = Traffic::new(vec![Lane::new(vec![0, 4]), Lane::new(vec![1])]);
    let para = Parameters { w_p: 3, w_e: 1 };
    let order = vec![0usize, 1, 0];
    let schd = Schedule::from_order(&order, &traffic, &para);
    // times: A 0, B max(1, 0+3)=3, A max(4, 3+3)=6
    assert_eq!(schd.scheduled_entering_times(), vec![vec![0, 6], vec![3]]);
    let back = schd.to_order();
    assert_eq!(back, order);
}

#[test]
fn extra_lanes_are_ignored_by_schedulers() {
    let traffic = Traffic::new(vec![
        Lane::new(vec![0, 2]),
        Lane::new(vec![1]),
        Lane::new(vec![100, 200]),
    ]);
    let para = Parameters { w_p: 3, w_e: 1 };
    let dp = DP;
    let schd = dp.solve(&traffic, &para).unwrap();
    // only the first two lanes are scheduled
    let times = schd.scheduled_entering_times();
    assert_eq!(times.len(), 2);
    assert_eq!(times[0].len(), 2);
    assert_eq!(times[1].len(), 1);
    // metrics pair lanes with schedule lanes and ignore the extra one
    let delays = traffic.delay_times(&schd);
    assert_eq!(delays.len(), 2);
}
