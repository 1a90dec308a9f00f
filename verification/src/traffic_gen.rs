use vstd::prelude::*;

verus! {

/// A lane's time series: for arrivals, the earliest arrival time of each
/// vehicle; for schedules, the assigned entering time of each vehicle.
/// Times are non-negative integer time units; index order is vehicle identity.
#[derive(Debug)]
pub struct Lane(Vec<u64>);

impl View for Lane {
    type V = Seq<u64>;

    closed spec fn view(&self) -> Seq<u64> {
        self.0@
    }
}

impl Lane {
    pub fn new(times: Vec<u64>) -> (r: Lane)
        ensures
            r@ == times@,
    {
        Lane(times)
    }

    pub fn times(&self) -> (r: &Vec<u64>)
        ensures
            r@ == self@,
    {
        &self.0
    }
}

/// The traffic instance handed to a scheduler: one earliest-arrival time
/// series per lane.  Schedulers read the first two lanes (lane A, lane B).
#[derive(Debug)]
pub struct Traffic {
    lanes: Vec<Lane>,
}

impl View for Traffic {
    type V = Seq<Seq<u64>>;

    closed spec fn view(&self) -> Seq<Seq<u64>> {
        self.lanes@.map_values(|l: Lane| l@)
    }
}

/// Copy of a time series, element for element.
pub(crate) fn copy_times(v: &Vec<u64>) -> (r: Vec<u64>)
    ensures
        r@ == v@,
{
    let mut r: Vec<u64> = Vec::new();
    let mut k: usize = 0;
    while k < v.len()
        invariant
            k <= v.len(),
            r@ == v@.take(k as int),
        decreases v.len() - k,
    {
        r.push(v[k]);
        k = k + 1;
        proof {
            assert(r@ =~= v@.take(k as int));
        }
    }
    proof {
        assert(r@ =~= v@);
    }
    r
}

impl Traffic {
    pub fn new(lanes: Vec<Lane>) -> (r: Traffic)
        ensures
            r@ == lanes@.map_values(|l: Lane| l@),
    {
        Traffic { lanes }
    }

    pub fn earlist_arrival_times(&self) -> (r: Vec<Vec<u64>>)
        ensures
            r@.len() == self@.len(),
            forall|k: int| 0 <= k < r@.len() ==> #[trigger] r@[k]@ == self@[k],
    {
        let mut r: Vec<Vec<u64>> = Vec::new();
        let mut k: usize = 0;
        while k < self.lanes.len()
            invariant
                k <= self.lanes.len(),
                r@.len() == k,
                forall|m: int| 0 <= m < k ==> #[trigger] r@[m]@ == self@[m],
            decreases self.lanes.len() - k,
        {
            r.push(copy_times(&self.lanes[k].0));
            k = k + 1;
        }
        r
    }
}

/// The two separation parameters: `w_e` is the minimum headway between two
/// consecutive merges from the same lane, `w_p` between merges from
/// different lanes.  Both are strictly positive time durations.
#[derive(Debug, Clone, Copy)]
pub struct Parameters {
    pub w_p: u64,
    pub w_e: u64,
}

impl Parameters {
    /// Both headways strictly positive, as the model demands.
    pub open spec fn valid(&self) -> bool {
        self.w_e >= 1 && self.w_p >= 1
    }
}

impl Default for Parameters {
    /// Default pairing: same-lane following is tighter than cross-lane merging.
    fn default() -> (r: Self)
        ensures
            r.w_p == 3 && r.w_e == 1,
            r.valid(),
    {
        Parameters { w_p: 3, w_e: 1 }
    }
}

} // verus!

verus! {

impl Traffic {
    /// Borrow one lane's time series.
    pub fn lane(&self, k: usize) -> (r: &Vec<u64>)
        requires
            k < self@.len(),
        ensures
            r@ == self@[k as int],
    {
        self.lanes[k].times()
    }
}

} // verus!

verus! {

impl Traffic {
    /// Number of lanes in this instance.
    pub fn lane_count(&self) -> (r: usize)
        ensures
            r == self@.len(),
    {
        self.lanes.len()
    }
}

} // verus!

verus! {

/// Largest delay in one lane: assigned entering time minus earliest
/// arrival, pointwise over the indices both sequences share; 0 if none.
pub open spec fn max_delay_lane(ts: Seq<int>, ar: Seq<u64>) -> int
    decreases ts.len(),
{
    if ts.len() == 0 || ar.len() == 0 {
        0
    } else {
        crate::max_i(ts[0] - ar[0], max_delay_lane(ts.skip(1), ar.skip(1)))
    }
}

/// Sum of the delays of one lane, over the indices both sequences share.
pub open spec fn sum_delay_lane(ts: Seq<int>, ar: Seq<u64>) -> int
    decreases ts.len(),
{
    if ts.len() == 0 || ar.len() == 0 {
        0
    } else {
        (ts[0] - ar[0]) + sum_delay_lane(ts.skip(1), ar.skip(1))
    }
}

/// Largest delay over all lanes shared by an arrival set and a schedule.
pub open spec fn max_delay_all(e: Seq<Seq<u64>>, s: Seq<Seq<u64>>) -> int
    decreases e.len(),
{
    if e.len() == 0 || s.len() == 0 {
        0
    } else {
        crate::max_i(
            max_delay_lane(crate::order::as_ints(s[0]), e[0]),
            max_delay_all(e.skip(1), s.skip(1)),
        )
    }
}

/// Every assigned time is at least its vehicle's arrival, on the lanes
/// and indices that `e` and `s` share.
pub open spec fn delays_ok(e: Seq<Seq<u64>>, s: Seq<Seq<u64>>) -> bool {
    forall|l: int, k: int|
        0 <= l < e.len() && l < s.len() && 0 <= k < e[l].len() && k < s[l].len()
            ==> #[trigger] s[l][k] >= e[l][k]
}

} // verus!

verus! {

/// Smaller of two lengths.
pub(crate) fn umin(x: usize, y: usize) -> (r: usize)
    ensures
        r == if x <= y { x as int } else { y as int },
{
    if x <= y {
        x
    } else {
        y
    }
}

proof fn lemma_mdl_unfold(ts: Seq<int>, ar: Seq<u64>, k: int)
    requires
        0 <= k < ts.len(),
        k < ar.len(),
    ensures
        max_delay_lane(ts.skip(k), ar.skip(k)) == crate::max_i(
            ts[k] - ar[k],
            max_delay_lane(ts.skip(k + 1), ar.skip(k + 1)),
        ),
{
    assert(ts.skip(k).skip(1) =~= ts.skip(k + 1));
    assert(ar.skip(k).skip(1) =~= ar.skip(k + 1));
    assert(ts.skip(k)[0] == ts[k]);
    assert(ar.skip(k)[0] == ar[k]);
}

proof fn lemma_sdl_unfold(ts: Seq<int>, ar: Seq<u64>, k: int)
    requires
        0 <= k < ts.len(),
        k < ar.len(),
    ensures
        sum_delay_lane(ts.skip(k), ar.skip(k)) == (ts[k] - ar[k]) + sum_delay_lane(
            ts.skip(k + 1),
            ar.skip(k + 1),
        ),
{
    assert(ts.skip(k).skip(1) =~= ts.skip(k + 1));
    assert(ar.skip(k).skip(1) =~= ar.skip(k + 1));
    assert(ts.skip(k)[0] == ts[k]);
    assert(ar.skip(k)[0] == ar[k]);
}

pub proof fn lemma_mda_unfold(e: Seq<Seq<u64>>, s: Seq<Seq<u64>>, l: int)
    requires
        0 <= l < e.len(),
        l < s.len(),
    ensures
        max_delay_all(e.skip(l), s.skip(l)) == crate::max_i(
            max_delay_lane(crate::order::as_ints(s[l]), e[l]),
            max_delay_all(e.skip(l + 1), s.skip(l + 1)),
        ),
{
    assert(e.skip(l).skip(1) =~= e.skip(l + 1));
    assert(s.skip(l).skip(1) =~= s.skip(l + 1));
    assert(e.skip(l)[0] == e[l]);
    assert(s.skip(l)[0] == s[l]);
}

impl Traffic {
    /// Per-vehicle delays: assigned entering time minus earliest arrival,
    /// lane by lane over the lanes both sides share.
    #[verifier::loop_isolation(false)]
    pub fn delay_times(&self, schd: &crate::scheduler::Schedule) -> (r: Vec<Vec<u64>>)
        requires
            delays_ok(self@, schd.times()),
        ensures
            r@.len() == if self@.len() <= schd.times().len() {
                self@.len() as int
            } else {
                schd.times().len() as int
            },
            forall|l: int|
                0 <= l < r@.len() ==> #[trigger] r@[l]@.len() == (if self@[l].len()
                    <= schd.times()[l].len() {
                    self@[l].len() as int
                } else {
                    schd.times()[l].len() as int
                }),
            forall|l: int, k: int|
                0 <= l < r@.len() && 0 <= k < r@[l]@.len() ==> #[trigger] r@[l]@[k] as int
                    == schd.times()[l][k] - self@[l][k],
    {
        let ghost ev = self@;
        let ghost sv = schd.times();
        let sets = schd.scheduled_entering_times();
        let nl = umin(self.lanes.len(), sets.len());
        let mut r: Vec<Vec<u64>> = Vec::new();
        let mut l: usize = 0;
        while l < nl
            invariant
                l <= nl,
                r@.len() == l,
                forall|q: int|
                    0 <= q < l ==> #[trigger] r@[q]@.len() == (if ev[q].len() <= sv[q].len() {
                        ev[q].len() as int
                    } else {
                        sv[q].len() as int
                    }),
                forall|q: int, k: int|
                    0 <= q < l && 0 <= k < r@[q]@.len() ==> #[trigger] r@[q]@[k] as int == sv[q][k]
                        - ev[q][k],
            decreases nl - l,
        {
            let e_l = self.lanes[l].times();
            let s_l = &sets[l];
            let nk = umin(e_l.len(), s_l.len());
            let mut row: Vec<u64> = Vec::new();
            let mut k: usize = 0;
            while k < nk
                invariant
                    k <= nk,
                    l < nl,
                    row@.len() == k,
                    forall|q: int|
                        0 <= q < k ==> #[trigger] row@[q] as int == sv[l as int][q] - ev[l as int][q],
                decreases nk - k,
            {
                row.push(s_l[k] - e_l[k]);
                k = k + 1;
            }
            r.push(row);
            l = l + 1;
        }
        r
    }

    /// The largest delay any vehicle suffers under `schd`, 0 when there
    /// are no vehicles.
    #[verifier::loop_isolation(false)]
    pub fn max_delay_time(&self, schd: &crate::scheduler::Schedule) -> (r: u64)
        requires
            delays_ok(self@, schd.times()),
        ensures
            r as int == max_delay_all(self@, schd.times()),
    {
        let ghost ev = self@;
        let ghost sv = schd.times();
        let sets = schd.scheduled_entering_times();
        let nl = umin(self.lanes.len(), sets.len());
        let mut m: u64 = 0;
        let mut l: usize = 0;
        proof {
            assert(ev.skip(0) =~= ev);
            assert(sv.skip(0) =~= sv);
        }
        while l < nl
            invariant
                l <= nl,
                max_delay_all(ev, sv) == crate::max_i(
                    m as int,
                    max_delay_all(ev.skip(l as int), sv.skip(l as int)),
                ),
            decreases nl - l,
        {
            let e_l = self.lanes[l].times();
            let s_l = &sets[l];
            let nk = umin(e_l.len(), s_l.len());
            let ghost ts = crate::order::as_ints(sv[l as int]);
            let ghost ar = ev[l as int];
            let ghost m_enter = m;
            proof {
                lemma_mda_unfold(ev, sv, l as int);
                assert(ts.skip(0) =~= ts);
                assert(ar.skip(0) =~= ar);
            }
            let mut k: usize = 0;
            while k < nk
                invariant
                    k <= nk,
                    l < nl,
                    nk == if ar.len() <= ts.len() { ar.len() as int } else { ts.len() as int },
                    crate::max_i(m as int, max_delay_lane(ts.skip(k as int), ar.skip(k as int)))
                        == crate::max_i(m_enter as int, max_delay_lane(ts, ar)),
                decreases nk - k,
            {
                proof {
                    lemma_mdl_unfold(ts, ar, k as int);
                    assert(ts[k as int] == sv[l as int][k as int] as int);
                }
                let d = s_l[k] - e_l[k];
                m = crate::time_max(m, d);
                k = k + 1;
            }
            proof {
                if ts.len() <= ar.len() {
                    assert(ts.skip(k as int) =~= Seq::<int>::empty());
                } else {
                    assert(ar.skip(k as int) =~= Seq::<u64>::empty());
                }
                assert(max_delay_lane(ts.skip(k as int), ar.skip(k as int)) == 0);
            }
            l = l + 1;
        }
        proof {
            if ev.len() <= sv.len() {
                assert(ev.skip(l as int) =~= Seq::<Seq<u64>>::empty());
            } else {
                assert(sv.skip(l as int) =~= Seq::<Seq<u64>>::empty());
            }
            assert(max_delay_all(ev.skip(l as int), sv.skip(l as int)) == 0);
        }
        m
    }
}

} // verus!

verus! {

/// Mean delay of one lane: the summed delays divided by the vehicle
/// count, rounded toward zero.
pub open spec fn lane_mean(ts: Seq<int>, ar: Seq<u64>) -> int {
    sum_delay_lane(ts, ar) / (if ts.len() <= ar.len() {
        ts.len() as int
    } else {
        ar.len() as int
    })
}

/// Sum of the per-lane mean delays.
pub open spec fn mean_sum(e: Seq<Seq<u64>>, s: Seq<Seq<u64>>) -> int
    decreases e.len(),
{
    if e.len() == 0 || s.len() == 0 {
        0
    } else {
        lane_mean(crate::order::as_ints(s[0]), e[0]) + mean_sum(e.skip(1), s.skip(1))
    }
}

/// Mean of the per-lane mean delays, rounded toward zero.
pub open spec fn mean_delay_all(e: Seq<Seq<u64>>, s: Seq<Seq<u64>>) -> int {
    mean_sum(e, s) / (if e.len() <= s.len() {
        e.len() as int
    } else {
        s.len() as int
    })
}

proof fn lemma_ms_unfold(e: Seq<Seq<u64>>, s: Seq<Seq<u64>>, l: int)
    requires
        0 <= l < e.len(),
        l < s.len(),
    ensures
        mean_sum(e.skip(l), s.skip(l)) == lane_mean(crate::order::as_ints(s[l]), e[l]) + mean_sum(
            e.skip(l + 1),
            s.skip(l + 1),
        ),
{
    assert(e.skip(l).skip(1) =~= e.skip(l + 1));
    assert(s.skip(l).skip(1) =~= s.skip(l + 1));
    assert(e.skip(l)[0] == e[l]);
    assert(s.skip(l)[0] == s[l]);
}

impl Traffic {
    /// Mean delay: each lane's delays averaged, then averaged over the
    /// lanes (integer division at both stages, as the sums are divided
    /// by the respective counts).
    #[verifier::loop_isolation(false)]
    pub fn mean_delay_time(&self, schd: &crate::scheduler::Schedule) -> (r: u64)
        requires
            delays_ok(self@, schd.times()),
            self@.len() >= 1,
            schd.times().len() >= 1,
            forall|l: int|
                0 <= l < self@.len() && l < schd.times().len() ==> #[trigger] self@[l].len() >= 1
                    && schd.times()[l].len() >= 1,
        ensures
            r as int == mean_delay_all(self@, schd.times()),
    {
        let ghost ev = self@;
        let ghost sv = schd.times();
        let ghost big: int = u64::MAX as int;
        let sets = schd.scheduled_entering_times();
        let nl = umin(self.lanes.len(), sets.len());
        let mut total: u128 = 0;
        let mut l: usize = 0;
        proof {
            assert(ev.skip(0) =~= ev);
            assert(sv.skip(0) =~= sv);
        }
        while l < nl
            invariant
                l <= nl,
                total as int + mean_sum(ev.skip(l as int), sv.skip(l as int)) == mean_sum(ev, sv),
                total as int <= l * big,
            decreases nl - l,
        {
            let e_l = self.lanes[l].times();
            let s_l = &sets[l];
            let nk = umin(e_l.len(), s_l.len());
            let ghost ts = crate::order::as_ints(sv[l as int]);
            let ghost ar = ev[l as int];
            proof {
                lemma_ms_unfold(ev, sv, l as int);
                assert(ts.skip(0) =~= ts);
                assert(ar.skip(0) =~= ar);
            }
            let mut sum: u128 = 0;
            let mut k: usize = 0;
            while k < nk
                invariant
                    k <= nk,
                    l < nl,
                    nk == if ts.len() <= ar.len() {
                        ts.len() as int
                    } else {
                        ar.len() as int
                    },
                    sum as int + sum_delay_lane(ts.skip(k as int), ar.skip(k as int))
                        == sum_delay_lane(ts, ar),
                    sum as int <= k * big,
                decreases nk - k,
            {
                proof {
                    lemma_mdl_unfold(ts, ar, k as int);
                    lemma_sdl_unfold(ts, ar, k as int);
                    assert(ts[k as int] == sv[l as int][k as int] as int);
                    crate::order::lemma_mul_dist(k as int, big);
                }
                let d = s_l[k] - e_l[k];
                sum = sum + (d as u128);
                k = k + 1;
            }
            proof {
                if ts.len() <= ar.len() {
                    assert(ts.skip(k as int) =~= Seq::<int>::empty());
                } else {
                    assert(ar.skip(k as int) =~= Seq::<u64>::empty());
                }
                assert(sum as int == sum_delay_lane(ts, ar));
            }
            let mean_l: u128 = sum / (nk as u128);
            proof {
                crate::order::lemma_mul_le(k as int, nk as int, big);
                vstd::arithmetic::div_mod::lemma_div_is_ordered(
                    sum as int,
                    nk as int * big,
                    nk as int,
                );
                vstd::arithmetic::div_mod::lemma_div_multiples_vanish(big, nk as int);
                assert(mean_l as int == lane_mean(ts, ar));
                assert(mean_l as int <= big);
                crate::order::lemma_mul_dist(l as int, big);
            }
            total = total + mean_l;
            l = l + 1;
        }
        proof {
            if ev.len() <= sv.len() {
                assert(ev.skip(l as int) =~= Seq::<Seq<u64>>::empty());
            } else {
                assert(sv.skip(l as int) =~= Seq::<Seq<u64>>::empty());
            }
            assert(total as int == mean_sum(ev, sv));
            crate::order::lemma_mul_le(l as int, nl as int, big);
            vstd::arithmetic::div_mod::lemma_div_is_ordered(
                total as int,
                nl as int * big,
                nl as int,
            );
            vstd::arithmetic::div_mod::lemma_div_multiples_vanish(big, nl as int);
        }
        let out: u128 = total / (nl as u128);
        proof {
            assert(out as int == mean_delay_all(ev, sv));
            assert(out <= u64::MAX);
        }
        out as u64
    }
}

} // verus!
