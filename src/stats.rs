//! Per-country latency statistics and the order of the report.
use vstd::prelude::*;
use crate::groups::{CountryGroup, CountryGroups, GroupView, MeasurementView, view_groups};
use crate::ordering::{
    keys_within, lemma_ins_at, lemma_sort_len, lemma_sort_sorted, lemma_sort_stable,
    lemma_sort_within, sort_by_key, sorted_by, with_key,
};

verus! {

/// Round-trip times order by their own value.
pub open spec fn rtt_key() -> spec_fn(u64) -> u64 {
    |x: u64| x
}

/// The round-trip times of `ms`, in order.
pub open spec fn rtts(ms: Seq<MeasurementView>) -> Seq<u64> {
    ms.map_values(|m: MeasurementView| m.rtt_ns)
}

/// The least element of a non-empty `s`.
pub open spec fn seq_min(s: Seq<u64>) -> u64
    decreases s.len(),
{
    if s.len() <= 1 {
        s[0]
    } else {
        let p = seq_min(s.drop_last());
        if s.last() < p { s.last() } else { p }
    }
}

/// The greatest element of a non-empty `s`.
pub open spec fn seq_max(s: Seq<u64>) -> u64
    decreases s.len(),
{
    if s.len() <= 1 {
        s[0]
    } else {
        let p = seq_max(s.drop_last());
        if s.last() > p { s.last() } else { p }
    }
}

pub open spec fn seq_sum(s: Seq<u64>) -> nat
    decreases s.len(),
{
    if s.len() == 0 {
        0
    } else {
        seq_sum(s.drop_last()) + s.last() as nat
    }
}

/// The median of a non-empty `s`: the middle value of `s` in ascending order,
/// or the mean (rounded down) of the two middle values where `s` has an even length.
pub open spec fn median(s: Seq<u64>) -> u64 {
    let t = sort_by_key(s, rtt_key());
    let n = s.len() as int;
    ((t[(n - 1) / 2] + t[n / 2]) / 2) as u64
}

/// The statistics of one country, all times in nanoseconds.
pub struct CountryStatistics {
    pub country: String,
    pub min_ns: u64,
    pub median_ns: u64,
    pub average_ns: u64,
    pub max_ns: u64,
}

pub struct StatsView {
    pub country: Seq<char>,
    pub min_ns: u64,
    pub median_ns: u64,
    pub average_ns: u64,
    pub max_ns: u64,
}

impl View for CountryStatistics {
    type V = StatsView;

    open spec fn view(&self) -> StatsView {
        StatsView {
            country: self.country@,
            min_ns: self.min_ns,
            median_ns: self.median_ns,
            average_ns: self.average_ns,
            max_ns: self.max_ns,
        }
    }
}

impl CountryStatistics {
    /// A copy of the statistics.
    pub fn duplicate(&self) -> (r: CountryStatistics)
        ensures
            r@ == self@,
    {
        CountryStatistics {
            country: self.country.clone(),
            min_ns: self.min_ns,
            median_ns: self.median_ns,
            average_ns: self.average_ns,
            max_ns: self.max_ns,
        }
    }
}

pub open spec fn view_stats(s: Seq<CountryStatistics>) -> Seq<StatsView> {
    s.map_values(|c: CountryStatistics| c@)
}

/// The statistics of a non-empty group: minimum, median, mean (rounded down)
/// and maximum of its round-trip times.
pub open spec fn stats_of(g: GroupView) -> StatsView {
    let s = rtts(g.1);
    StatsView {
        country: g.0,
        min_ns: seq_min(s),
        median_ns: median(s),
        average_ns: (seq_sum(s) / s.len()) as u64,
        max_ns: seq_max(s),
    }
}

/// The statistics of each non-empty group of `gs`, in the order of the groups.
pub open spec fn all_stats(gs: Seq<GroupView>) -> Seq<StatsView>
    decreases gs.len(),
{
    if gs.len() == 0 {
        Seq::empty()
    } else if gs.last().1.len() == 0 {
        all_stats(gs.drop_last())
    } else {
        all_stats(gs.drop_last()).push(stats_of(gs.last()))
    }
}

/// Statistics order by their minimum.
pub open spec fn min_key() -> spec_fn(StatsView) -> u64 {
    |c: StatsView| c.min_ns
}

/// The report: the statistics of every non-empty group, ascending by minimum,
/// countries of equal minimum in the order of their groups.
pub open spec fn report(gs: Seq<GroupView>) -> Seq<StatsView> {
    sort_by_key(all_stats(gs), min_key())
}

/// The report is ascending by minimum round-trip time, and the countries that
/// share a minimum appear in the order in which their groups came.
pub proof fn lemma_report_order(gs: Seq<GroupView>, k: u64)
    ensures
        forall|i: int, j: int|
            0 <= i <= j < report(gs).len() ==> report(gs)[i].min_ns <= report(gs)[j].min_ns,
        with_key(report(gs), min_key(), k) == with_key(all_stats(gs), min_key(), k),
        report(gs).len() == all_stats(gs).len(),
{
    lemma_sort_sorted(all_stats(gs), min_key());
    lemma_sort_stable(all_stats(gs), min_key(), k);
    lemma_sort_len(all_stats(gs), min_key());
    let r = report(gs);
    assert forall|i: int, j: int| 0 <= i <= j < r.len() implies r[i].min_ns <= r[j].min_ns by {
        assert(sorted_by(r, min_key()));
        assert(min_key()(r[i]) <= min_key()(r[j]));
    }
}

proof fn lemma_min_max_bound(s: Seq<u64>)
    requires
        s.len() > 0,
    ensures
        keys_within(s, rtt_key(), seq_min(s) as int, seq_max(s) as int),
        s.len() * seq_min(s) <= seq_sum(s) <= s.len() * seq_max(s),
    decreases s.len(),
{
    if s.len() > 1 {
        let d = s.drop_last();
        lemma_min_max_bound(d);
        let (lo, hi, lo2, hi2) = (seq_min(d) as int, seq_max(d) as int, seq_min(s) as int, seq_max(s) as int);
        assert forall|i: int| 0 <= i < s.len() implies lo2 <= #[trigger] rtt_key()(s[i]) <= hi2 by {
            if i < d.len() {
                assert(s[i] == d[i]);
                assert(lo <= rtt_key()(d[i]) <= hi);
            }
        }
        let n = d.len() as int;
        let x = s.last() as int;
        let sm = seq_sum(d) as int;
        assert(n * lo <= sm <= n * hi);
        assert(lo2 <= lo && lo2 <= x && hi <= hi2 && x <= hi2);
        assert(n * lo2 <= n * lo) by (nonlinear_arith)
            requires
                lo2 <= lo,
                n >= 0,
        ;
        assert(n * hi <= n * hi2) by (nonlinear_arith)
            requires
                hi <= hi2,
                n >= 0,
        ;
        assert((n + 1) * lo2 == n * lo2 + lo2) by (nonlinear_arith);
        assert((n + 1) * hi2 == n * hi2 + hi2) by (nonlinear_arith);
        assert(seq_sum(s) == sm + x);
        assert(s.len() == n + 1);
        assert((n + 1) * lo2 <= sm + x <= (n + 1) * hi2);
    } else {
        assert(rtt_key()(s[0]) == s[0]);
        assert(seq_sum(s.drop_last()) == 0);
        assert(seq_sum(s) == s[0]);
    }
}

/// The bounds that hold of the statistics of any non-empty group.
pub proof fn lemma_stats_bounds(g: GroupView)
    requires
        g.1.len() > 0,
    ensures
        stats_of(g).min_ns <= stats_of(g).median_ns <= stats_of(g).max_ns,
        stats_of(g).min_ns <= stats_of(g).average_ns <= stats_of(g).max_ns,
{
    let s = rtts(g.1);
    let n = s.len() as int;
    lemma_min_max_bound(s);
    let lo = seq_min(s) as int;
    let hi = seq_max(s) as int;
    lemma_sort_within(s, rtt_key(), lo, hi);
    lemma_sort_len(s, rtt_key());
    let t = sort_by_key(s, rtt_key());
    assert(lo <= rtt_key()(t[(n - 1) / 2]) <= hi);
    assert(lo <= rtt_key()(t[n / 2]) <= hi);
    let sm = seq_sum(s) as int;
    assert(lo <= sm / n <= hi) by (nonlinear_arith)
        requires
            n * lo <= sm <= n * hi,
            n > 0,
    ;
}

/// The round-trip times of `v` in ascending order.
pub fn sort_rtts(v: &Vec<u64>) -> (r: Vec<u64>)
    ensures
        r@ == sort_by_key(v@, rtt_key()),
{
    let mut out: Vec<u64> = Vec::new();
    let n = v.len();
    let mut i: usize = 0;
    while i < n
        invariant
            n == v@.len(),
            i <= n,
            out@ == sort_by_key(v@.take(i as int), rtt_key()),
            out@.len() == i,
        decreases n - i,
    {
        let x = v[i];
        let mut p: usize = out.len();
        while p > 0 && out[p - 1] > x
            invariant
                p <= out@.len(),
                forall|j: int| p <= j < out@.len() ==> out@[j] > x,
            ensures
                p <= out@.len(),
                forall|j: int| p <= j < out@.len() ==> out@[j] > x,
                p == 0 || out@[p - 1] <= x,
            decreases p,
        {
            p = p - 1;
        }
        proof {
            lemma_ins_at(out@, rtt_key(), x, p as int);
            assert(v@.take(i + 1).drop_last() =~= v@.take(i as int));
        }
        out.insert(p, x);
        i = i + 1;
    }
    assert(v@.take(n as int) =~= v@);
    out
}

/// The statistics of `group`, or `None` where it holds no measurement.
pub fn group_statistics(group: &CountryGroup) -> (r: Option<CountryStatistics>)
    ensures
        r is None <==> group@.1.len() == 0,
        r matches Some(c) ==> c@ == stats_of(group@),
        r matches Some(c) ==> c.min_ns <= c.median_ns <= c.max_ns,
        r matches Some(c) ==> c.min_ns <= c.average_ns <= c.max_ns,
{
    let n = group.measurements.len();
    if n == 0 {
        return None;
    }
    let ghost s = rtts(group@.1);
    let mut all: Vec<u64> = Vec::new();
    let first = group.measurements[0].rtt_ns;
    let mut lo: u64 = first;
    let mut hi: u64 = first;
    let mut sum: u128 = 0;
    let mut i: usize = 0;
    while i < n
        invariant
            n == group.measurements@.len(),
            s == rtts(group@.1),
            s.len() == n,
            n > 0,
            first == s[0],
            i <= n,
            all@ == s.take(i as int),
            sum == seq_sum(s.take(i as int)),
            sum <= i * 0x1_0000_0000_0000_0000,
            i == 0 ==> lo == first && hi == first,
            i > 0 ==> lo == seq_min(s.take(i as int)) && hi == seq_max(s.take(i as int)),
        decreases n - i,
    {
        let x = group.measurements[i].rtt_ns;
        assert(x == s[i as int]);
        let ghost t = s.take(i + 1);
        assert(t.drop_last() =~= s.take(i as int));
        if i > 0 {
            if x < lo {
                lo = x;
            }
            if x > hi {
                hi = x;
            }
        } else {
            assert(t.len() == 1);
        }
        assert(sum + x <= (i + 1) * 0x1_0000_0000_0000_0000) by (nonlinear_arith)
            requires
                sum <= i * 0x1_0000_0000_0000_0000,
                x < 0x1_0000_0000_0000_0000,
        ;
        sum = sum + x as u128;
        all.push(x);
        i = i + 1;
    }
    assert(s.take(n as int) =~= s);
    let sorted = sort_rtts(&all);
    proof {
        lemma_sort_len(s, rtt_key());
        lemma_stats_bounds(group@);
    }
    let a = sorted[(n - 1) / 2];
    let b = sorted[n / 2];
    let med = ((a as u128 + b as u128) / 2) as u64;
    let avg = (sum / (n as u128)) as u64;
    Some(
        CountryStatistics {
            country: group.country.clone(),
            min_ns: lo,
            median_ns: med,
            average_ns: avg,
            max_ns: hi,
        },
    )
}

/// `v` ascending by minimum; statistics of equal minimum keep their order.
pub fn order_by_min(v: &Vec<CountryStatistics>) -> (r: Vec<CountryStatistics>)
    ensures
        view_stats(r@) == sort_by_key(view_stats(v@), min_key()),
{
    let ghost vs = view_stats(v@);
    let mut out: Vec<CountryStatistics> = Vec::new();
    let n = v.len();
    let mut i: usize = 0;
    while i < n
        invariant
            n == v@.len(),
            vs == view_stats(v@),
            i <= n,
            view_stats(out@) == sort_by_key(vs.take(i as int), min_key()),
        decreases n - i,
    {
        let x = v[i].duplicate();
        let key = x.min_ns;
        let mut p: usize = out.len();
        while p > 0 && out[p - 1].min_ns > key
            invariant
                p <= out@.len(),
                forall|j: int| p <= j < out@.len() ==> out@[j].min_ns > key,
            ensures
                p <= out@.len(),
                forall|j: int| p <= j < out@.len() ==> out@[j].min_ns > key,
                p == 0 || out@[p - 1].min_ns <= key,
            decreases p,
        {
            p = p - 1;
        }
        let ghost before = out@;
        proof {
            lemma_ins_at(view_stats(out@), min_key(), x@, p as int);
            assert(vs.take(i + 1).drop_last() =~= vs.take(i as int));
            assert(vs[i as int] == x@);
        }
        out.insert(p, x);
        assert(view_stats(out@) =~= view_stats(before).insert(p as int, x@));
        i = i + 1;
    }
    assert(vs.take(n as int) =~= vs);
    out
}

/// The report of `groups`: the statistics of every non-empty group, ascending
/// by minimum round-trip time, countries of equal minimum in group order.
pub fn aggregate(groups: &CountryGroups) -> (r: Vec<CountryStatistics>)
    ensures
        view_stats(r@) == report(groups@),
{
    let gs = groups.groups();
    let ghost gv = groups@;
    let mut all: Vec<CountryStatistics> = Vec::new();
    let n = gs.len();
    let mut i: usize = 0;
    while i < n
        invariant
            n == gs@.len(),
            gv == view_groups(gs@),
            i <= n,
            view_stats(all@) == all_stats(gv.take(i as int)),
        decreases n - i,
    {
        let ghost before = all@;
        assert(gv.take(i + 1).drop_last() =~= gv.take(i as int));
        assert(gv[i as int] == gs@[i as int]@);
        match group_statistics(&gs[i]) {
            Some(c) => {
                all.push(c);
                assert(view_stats(all@) =~= view_stats(before).push(stats_of(gv[i as int])));
            },
            None => {},
        }
        i = i + 1;
    }
    assert(gv.take(n as int) =~= gv);
    order_by_min(&all)
}

} // verus!
