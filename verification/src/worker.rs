//! The background quota adjust worker: the control loop itself.

use vstd::prelude::*;

use crate::arith::{available_quota, avail_spec, cap64, mul_div, sat_add, sat_sub};
use crate::limiter::{
    GroupStatistics, QuotaLimiter, RateLimit, ResourceType, ResourceUsageStats,
    spec_per_second, spec_saturating_delta,
};
use crate::prev_stats::{spec_lookup, PrevStats};
use crate::registry::{spec_find, sum_ru_upto, ResourceGroup, ResourceGroupManager};

verus! {

/// How often the caller is expected to schedule a tick, in milliseconds.
/// The worker itself only debounces ticks closer than one second.
pub const BACKGROUND_LIMIT_ADJUST_DURATION_MS: u64 = 10_000;

/// Tick-local snapshot of one participating group: its position in the
/// registry, its weight, its per-second counter delta since the previous
/// tick, and the consumption it is expected to ask for next.
#[derive(Clone, Copy, PartialEq, Eq, Structural, Debug)]
pub struct GroupStats {
    pub idx: usize,
    pub ru_quota: u64,
    pub stats: GroupStatistics,
    pub expected_cost: u64,
}

/// Whether group `i` participates in background limiting.
pub open spec fn is_bg(m: ResourceGroupManager, i: int) -> bool {
    0 <= i < m.groups@.len() && m.groups@[i].limiter is Some
}

/// The sub-limiter of group `i` for dimension `t`.
pub open spec fn spec_sub_of(m: ResourceGroupManager, i: int, t: ResourceType) -> QuotaLimiter {
    m.groups@[i].limiter->Some_0.spec_sub(t)
}

/// The delta a group contributes this tick: its cumulative counters minus
/// the stored baseline (a missing baseline means the whole history counts),
/// scaled to a per-second rate.
pub open spec fn spec_scaled_delta(
    prev: Option<GroupStatistics>,
    cum: GroupStatistics,
    dur_ms: int,
) -> GroupStatistics {
    let d = match prev {
        Some(p) => spec_saturating_delta(cum, p),
        None => cum,
    };
    spec_per_second(d, dur_ms)
}

/// The consumption a group is expected to ask for: what it consumed plus
/// what it would have consumed had it not been throttled, pricing throttled
/// seconds at the current rate limit (an uncapped limiter prices at zero).
pub open spec fn spec_expected_cost(d: GroupStatistics, rl: RateLimit) -> int {
    cap64(d.total_consumed + cap64(d.total_wait_dur_us * rl.spec_cost_rate() / 1_000_000))
}

/// The snapshot entry of participating group `i`.
pub open spec fn spec_group_snap(
    m: ResourceGroupManager,
    prev: Seq<(String, GroupStatistics)>,
    t: ResourceType,
    dur_ms: int,
    i: int,
) -> GroupStats {
    let g = m.groups@[i];
    let sub = g.limiter->Some_0.spec_sub(t);
    let d = spec_scaled_delta(spec_lookup(prev, g.name@), sub.statistics, dur_ms);
    GroupStats {
        idx: i as usize,
        ru_quota: g.ru_quota,
        stats: d,
        expected_cost: spec_expected_cost(d, sub.rate_limit) as u64,
    }
}

/// The tick's snapshot: one entry per participating group among the first
/// `n`, in registry order, with deltas taken against the baselines `prev`.
pub open spec fn snapshot_upto(
    m: ResourceGroupManager,
    prev: Seq<(String, GroupStatistics)>,
    t: ResourceType,
    dur_ms: int,
    n: int,
) -> Seq<GroupStats>
    decreases n,
{
    if n <= 0 {
        Seq::empty()
    } else if m.groups@[n - 1].limiter is Some {
        snapshot_upto(m, prev, t, dur_ms, n - 1).push(spec_group_snap(m, prev, t, dur_ms, n - 1))
    } else {
        snapshot_upto(m, prev, t, dur_ms, n - 1)
    }
}

/// Total weight of the snapshot.
pub open spec fn sum_ru_snap(s: Seq<GroupStats>) -> int
    decreases s.len(),
{
    if s.len() == 0 {
        0
    } else {
        sum_ru_snap(s.drop_last()) + s.last().ru_quota
    }
}

/// Total per-second background consumption, accumulated saturating.
pub open spec fn sum_cons_sat(s: Seq<GroupStats>) -> int
    decreases s.len(),
{
    if s.len() == 0 {
        0
    } else {
        cap64(sum_cons_sat(s.drop_last()) + s.last().stats.total_consumed)
    }
}

/// Total expected cost, accumulated saturating.
pub open spec fn sum_exp_sat(s: Seq<GroupStats>) -> int
    decreases s.len(),
{
    if s.len() == 0 {
        0
    } else {
        cap64(sum_exp_sat(s.drop_last()) + s.last().expected_cost)
    }
}

/// Whether any group waited on this dimension's limiter since last tick.
pub open spec fn spec_has_wait(s: Seq<GroupStats>) -> bool {
    exists|j: int| 0 <= j < s.len() && s[j].stats.total_wait_dur_us > 0
}

/// Foreground usage is low: at most 10% of the dimension's cap.
pub open spec fn spec_low_load(stats: ResourceUsageStats) -> bool {
    stats.current_used * 10 <= stats.total_quota
}

/// The registries agree on everything but rate-limit setpoints: same
/// groups, same names and weights, same participation, same counters.
pub open spec fn same_shape(o: ResourceGroupManager, w: ResourceGroupManager) -> bool {
    &&& w.groups@.len() == o.groups@.len()
    &&& forall|i: int|
        0 <= i < o.groups@.len() ==> {
            &&& (#[trigger] w.groups@[i]).name@ == o.groups@[i].name@
            &&& w.groups@[i].ru_quota == o.groups@[i].ru_quota
            &&& (w.groups@[i].limiter is Some <==> o.groups@[i].limiter is Some)
            &&& (o.groups@[i].limiter is Some ==> {
                &&& spec_sub_of(w, i, ResourceType::Cpu).statistics == spec_sub_of(
                    o,
                    i,
                    ResourceType::Cpu,
                ).statistics
                &&& spec_sub_of(w, i, ResourceType::Io).statistics == spec_sub_of(
                    o,
                    i,
                    ResourceType::Io,
                ).statistics
            })
        }
}

/// No setpoint of dimension `t` differs between the two registries.
pub open spec fn dim_rates_unchanged(
    o: ResourceGroupManager,
    w: ResourceGroupManager,
    t: ResourceType,
) -> bool {
    forall|i: int|
        is_bg(o, i) ==> spec_sub_of(w, i, t).rate_limit == spec_sub_of(o, i, t).rate_limit
}

/// Strict processing order of the snapshot: ascending expected cost per
/// resource unit, compared exactly by cross-multiplication, with registry
/// position breaking ties. Total on every snapshot, so the sort never
/// meets an unordered pair (the integer model has no NaN to defend
/// against).
pub open spec fn cost_lt(a: GroupStats, b: GroupStats) -> bool {
    let l = a.expected_cost * b.ru_quota;
    let r = b.expected_cost * a.ru_quota;
    l < r || (l == r && a.idx < b.idx)
}

/// Where `g` lands in an already-processed sequence: after every element
/// that precedes it in the processing order.
pub open spec fn spec_insert(s: Seq<GroupStats>, g: GroupStats) -> Seq<GroupStats>
    decreases s.len(),
{
    if s.len() == 0 {
        seq![g]
    } else if cost_lt(s.last(), g) {
        s.push(g)
    } else {
        spec_insert(s.drop_last(), g).push(s.last())
    }
}

/// The snapshot in processing order, as a mathematical function.
pub open spec fn spec_sort(s: Seq<GroupStats>) -> Seq<GroupStats>
    decreases s.len(),
{
    if s.len() == 0 {
        Seq::empty()
    } else {
        spec_insert(spec_sort(s.drop_last()), s.last())
    }
}

/// Executable form of `cost_lt`.
fn cost_lt_exec(a: &GroupStats, b: &GroupStats) -> (r: bool)
    ensures
        r == cost_lt(*a, *b),
{
    proof {
        assert(a.expected_cost as int * b.ru_quota as int <= u64::MAX as int * u64::MAX as int
            && b.expected_cost as int * a.ru_quota as int <= u64::MAX as int * u64::MAX as int)
            by (nonlinear_arith)
            requires
                a.expected_cost as int <= u64::MAX as int,
                b.ru_quota as int <= u64::MAX as int,
                b.expected_cost as int <= u64::MAX as int,
                a.ru_quota as int <= u64::MAX as int,
        ;
    }
    let l: u128 = (a.expected_cost as u128) * (b.ru_quota as u128);
    let r2: u128 = (b.expected_cost as u128) * (a.ru_quota as u128);
    l < r2 || (l == r2 && a.idx < b.idx)
}

/// When the elements from `p` on do not precede `g` and the one before `p`
/// does, `g` lands exactly at `p`.
proof fn lemma_spec_insert_at(s: Seq<GroupStats>, g: GroupStats, p: int)
    requires
        0 <= p <= s.len(),
        forall|k: int| p <= k < s.len() ==> !cost_lt(s[k], g),
        p > 0 ==> cost_lt(s[p - 1], g),
    ensures
        spec_insert(s, g) == s.insert(p, g),
    decreases s.len(),
{
    if s.len() == 0 {
        assert(s.insert(0, g) =~= seq![g]);
    } else if p == s.len() {
        assert(cost_lt(s.last(), g));
        assert(s.insert(p, g) =~= s.push(g));
    } else {
        assert(!cost_lt(s.last(), g));
        assert(forall|k: int|
            0 <= k < s.drop_last().len() ==> #[trigger] s.drop_last()[k] == s[k]);
        lemma_spec_insert_at(s.drop_last(), g, p);
        assert(s.drop_last().insert(p, g).push(s.last()) =~= s.insert(p, g));
    }
}

/// Sorts the snapshot into processing order.
pub fn sort_groups(v: &Vec<GroupStats>) -> (r: Vec<GroupStats>)
    ensures
        r@ == spec_sort(v@),
{
    let n = v.len();
    let mut out: Vec<GroupStats> = Vec::new();
    let mut i: usize = 0;
    while i < n
        invariant
            n == v.len(),
            i <= n,
            out@ == spec_sort(v@.take(i as int)),
        decreases n - i,
    {
        let g = v[i];
        let mut j = out.len();
        loop
            invariant_except_break
                j <= out.len(),
                forall|k: int| j <= k < out@.len() ==> !cost_lt(out@[k], g),
            ensures
                j <= out.len(),
                forall|k: int| j <= k < out@.len() ==> !cost_lt(out@[k], g),
                j > 0 ==> cost_lt(out@[j - 1], g),
            decreases j,
        {
            if j == 0 {
                break ;
            }
            if cost_lt_exec(&out[j - 1], &g) {
                break ;
            }
            j = j - 1;
        }
        proof {
            lemma_spec_insert_at(out@, g, j as int);
        }
        out.insert(j, g);
        proof {
            assert(v@.take(i as int + 1).drop_last() =~= v@.take(i as int));
            assert(v@.take(i as int + 1).last() == v@[i as int]);
        }
        i = i + 1;
    }
    proof {
        assert(v@.take(n as int) =~= v@);
    }
    out
}

/// A weight-proportional share of the remaining headroom, rounded down.
pub open spec fn spec_fair(avail: int, total_ru: int, ru: int) -> int {
    if total_ru <= 0 {
        0
    } else {
        cap64(avail * ru / total_ru)
    }
}

/// The deficit pass: ascending order; a group asking for less than the
/// average fair share is granted its ask, any other is held to the fair
/// share; the granted amount and the group's weight then leave the pool.
pub open spec fn spec_deficit(s: Seq<GroupStats>, avail: int, total_ru: int) -> Seq<int>
    decreases s.len(),
{
    if s.len() == 0 {
        Seq::empty()
    } else {
        let g = s[0];
        let limit = if total_ru > 0 && g.expected_cost * total_ru < avail * g.ru_quota {
            g.expected_cost as int
        } else {
            spec_fair(avail, total_ru, g.ru_quota as int)
        };
        let avail2 = if avail >= limit {
            avail - limit
        } else {
            0
        };
        let total2 = if total_ru >= g.ru_quota {
            total_ru - g.ru_quota
        } else {
            0
        };
        seq![limit] + spec_deficit(s.drop_first(), avail2, total2)
    }
}

/// The surplus pass: descending order; a group asking for more than the
/// average fair share is granted its ask, any other is widened to the fair
/// share, so spare room is redistributed by weight.
pub open spec fn spec_surplus(s: Seq<GroupStats>, avail: int, total_ru: int) -> Seq<int>
    decreases s.len(),
{
    if s.len() == 0 {
        Seq::empty()
    } else {
        let g = s.last();
        let limit = if total_ru > 0 && g.expected_cost * total_ru > avail * g.ru_quota {
            g.expected_cost as int
        } else {
            spec_fair(avail, total_ru, g.ru_quota as int)
        };
        let avail2 = if avail >= limit {
            avail - limit
        } else {
            0
        };
        let total2 = if total_ru >= g.ru_quota {
            total_ru - g.ru_quota
        } else {
            0
        };
        spec_surplus(s.drop_last(), avail2, total2).push(limit)
    }
}

/// Whether some element of `s` stands for group `x`.
pub open spec fn has_idx(s: Seq<GroupStats>, x: usize) -> bool {
    exists|j: int| 0 <= j < s.len() && s[j].idx == x
}

/// No two elements stand for the same group.
pub open spec fn idx_distinct(s: Seq<GroupStats>) -> bool {
    forall|j: int, k: int| 0 <= j < k < s.len() ==> s[j].idx != s[k].idx
}

/// The snapshot's entries stand for participating groups in ascending
/// registry order, and its total weight stays under the registry's.
pub proof fn lemma_snapshot_props(
    m: ResourceGroupManager,
    prev: Seq<(String, GroupStatistics)>,
    t: ResourceType,
    dur_ms: int,
    n: int,
)
    requires
        n <= m.groups@.len(),
    ensures
        ({
            let s = snapshot_upto(m, prev, t, dur_ms, n);
            &&& forall|j: int|
                0 <= j < s.len() ==> (#[trigger] s[j]).idx < n && is_bg(m, s[j].idx as int) && s[j]
                    == spec_group_snap(m, prev, t, dur_ms, s[j].idx as int)
            &&& forall|j: int, k: int| 0 <= j < k < s.len() ==> s[j].idx < s[k].idx
            &&& sum_ru_snap(s) <= sum_ru_upto(m.groups@, n)
            &&& forall|i: int| 0 <= i < n && is_bg(m, i) ==> has_idx(s, i as usize)
        }),
    decreases n,
{
    assert(m.groups.len() == m.groups@.len());
    if n > 0 {
        lemma_snapshot_props(m, prev, t, dur_ms, n - 1);
        let s0 = snapshot_upto(m, prev, t, dur_ms, n - 1);
        let s = snapshot_upto(m, prev, t, dur_ms, n);
        if m.groups@[n - 1].limiter is Some {
            assert(s == s0.push(spec_group_snap(m, prev, t, dur_ms, n - 1)));
            assert(s.drop_last() =~= s0);
            assert(forall|j: int| 0 <= j < s0.len() ==> #[trigger] s[j] == s0[j]);
            assert forall|i: int| 0 <= i < n && is_bg(m, i) implies has_idx(s, i as usize) by {
                if i < n - 1 {
                    let j = choose|j: int| 0 <= j < s0.len() && s0[j].idx == i as usize;
                    assert(s[j].idx == i as usize);
                } else {
                    assert(s[s.len() - 1].idx == (n - 1) as usize);
                }
            }
        } else {
            assert(sum_ru_upto(m.groups@, n) == sum_ru_upto(m.groups@, n - 1)
                + m.groups@[n - 1].ru_quota);
        }
    }
}

/// A nonempty snapshot with positive weights has positive total weight;
/// more precisely the total is at least the element count.
pub proof fn lemma_sum_ru_snap_lower(s: Seq<GroupStats>)
    requires
        forall|j: int| 0 <= j < s.len() ==> (#[trigger] s[j]).ru_quota >= 1,
    ensures
        sum_ru_snap(s) >= s.len(),
    decreases s.len(),
{
    if s.len() > 0 {
        assert(forall|j: int|
            0 <= j < s.drop_last().len() ==> #[trigger] s.drop_last()[j] == s[j]);
        lemma_sum_ru_snap_lower(s.drop_last());
    }
}

/// Group `g` with the setpoint of dimension `t` replaced by `l`.
pub open spec fn spec_with_rate(g: ResourceGroup, t: ResourceType, l: RateLimit) -> ResourceGroup {
    let lim = g.limiter->Some_0;
    let new_lim = match t {
        ResourceType::Cpu => crate::limiter::ResourceLimiter {
            cpu_limiter: QuotaLimiter { rate_limit: l, statistics: lim.cpu_limiter.statistics },
            io_limiter: lim.io_limiter,
        },
        ResourceType::Io => crate::limiter::ResourceLimiter {
            cpu_limiter: lim.cpu_limiter,
            io_limiter: QuotaLimiter { rate_limit: l, statistics: lim.io_limiter.statistics },
        },
    };
    ResourceGroup { name: g.name, ru_quota: g.ru_quota, limiter: Some(new_lim) }
}

/// Writes the setpoint of dimension `t` of the group at `i`.
fn set_group_rate_limit(m: &mut ResourceGroupManager, i: usize, t: ResourceType, l: RateLimit)
    requires
        i < old(m).groups@.len(),
        old(m).groups@[i as int].limiter is Some,
    ensures
        final(m).groups@ == old(m).groups@.update(
            i as int,
            spec_with_rate(old(m).groups@[i as int], t, l),
        ),
{
    let g = &mut m.groups[i];
    if let Some(lim) = &mut g.limiter {
        lim.set_rate_limit(t, l);
    }
    proof {
        assert(final(m).groups@ =~= old(m).groups@.update(
            i as int,
            spec_with_rate(old(m).groups@[i as int], t, l),
        ));
    }
}

/// The prefix weight sums of the registry grow with the prefix.
pub proof fn lemma_sum_ru_upto_mono(gs: Seq<ResourceGroup>, a: int, b: int)
    requires
        0 <= a <= b,
    ensures
        sum_ru_upto(gs, a) <= sum_ru_upto(gs, b),
    decreases b - a,
{
    if a < b {
        lemma_sum_ru_upto_mono(gs, a, b - 1);
    }
}

/// The snapshot's weight sum can also be peeled from the front.
pub proof fn lemma_sum_ru_snap_front(s: Seq<GroupStats>)
    requires
        s.len() > 0,
    ensures
        sum_ru_snap(s) == s[0].ru_quota + sum_ru_snap(s.drop_first()),
    decreases s.len(),
{
    if s.len() == 1 {
        assert(s.drop_first() =~= Seq::<GroupStats>::empty());
        assert(s.drop_last() =~= Seq::<GroupStats>::empty());
    } else {
        lemma_sum_ru_snap_front(s.drop_last());
        assert(s.drop_last()[0] == s[0]);
        assert(s.drop_first().drop_last() =~= s.drop_last().drop_first());
        assert(s.drop_first().last() == s.last());
    }
}

/// What inserting does to length, weight sum, membership and group
/// identities.
pub proof fn lemma_spec_insert_props(s: Seq<GroupStats>, g: GroupStats)
    ensures
        spec_insert(s, g).len() == s.len() + 1,
        sum_ru_snap(spec_insert(s, g)) == sum_ru_snap(s) + g.ru_quota,
        forall|j: int|
            0 <= j < spec_insert(s, g).len() ==> (#[trigger] spec_insert(s, g)[j]) == g || (
            exists|k: int| 0 <= k < s.len() && s[k] == spec_insert(s, g)[j]),
        forall|x: usize| #[trigger] has_idx(spec_insert(s, g), x) <==> (has_idx(s, x) || g.idx == x),
        idx_distinct(s) && !has_idx(s, g.idx) ==> idx_distinct(spec_insert(s, g)),
    decreases s.len(),
{
    let r = spec_insert(s, g);
    reveal_with_fuel(sum_ru_snap, 3);
    if s.len() == 0 {
        assert(r =~= seq![g]);
        assert(r[0] == g);
        assert(r.drop_last() =~= Seq::<GroupStats>::empty());
        assert(r.last() == g);
        assert forall|x: usize| #[trigger] has_idx(r, x) implies (has_idx(s, x) || g.idx == x) by {
            let j = choose|j: int| 0 <= j < r.len() && r[j].idx == x;
        }
        assert(r[0].idx == g.idx);
    } else if cost_lt(s.last(), g) {
        assert(r == s.push(g));
        assert(r.drop_last() =~= s);
        assert(r.last() == g);
        assert(forall|k: int| 0 <= k < s.len() ==> #[trigger] r[k] == s[k]);
        assert(r[s.len() as int] == g);
        assert forall|x: usize| #[trigger] has_idx(r, x) implies (has_idx(s, x) || g.idx == x) by {
            let j = choose|j: int| 0 <= j < r.len() && r[j].idx == x;
            if j < s.len() {
                assert(s[j].idx == x);
            }
        }
        assert forall|x: usize| has_idx(s, x) || g.idx == x implies #[trigger] has_idx(r, x) by {
            if has_idx(s, x) {
                let j = choose|j: int| 0 <= j < s.len() && s[j].idx == x;
                assert(r[j].idx == x);
            } else {
                assert(r[s.len() as int].idx == x);
            }
        }
    } else {
        let r0 = spec_insert(s.drop_last(), g);
        lemma_spec_insert_props(s.drop_last(), g);
        assert(r == r0.push(s.last()));
        assert(r.drop_last() =~= r0);
        assert(r.last() == s.last());
        assert(sum_ru_snap(r) == sum_ru_snap(r0) + s.last().ru_quota);
        assert(sum_ru_snap(s) == sum_ru_snap(s.drop_last()) + s.last().ru_quota);
        assert(forall|k: int|
            0 <= k < s.drop_last().len() ==> #[trigger] s.drop_last()[k] == s[k]);
        assert(forall|k: int| 0 <= k < r0.len() ==> #[trigger] r[k] == r0[k]);
        assert(r[r0.len() as int] == s.last());
        // membership
        assert forall|j: int|
            0 <= j < r.len() implies (#[trigger] r[j]) == g || (exists|k: int|
            0 <= k < s.len() && s[k] == r[j]) by {
            if j < r0.len() {
                if r0[j] == g {
                } else {
                    let k = choose|k: int| 0 <= k < s.drop_last().len() && s.drop_last()[k] == r0[j];
                    assert(s[k] == r[j]);
                }
            } else {
                assert(s[s.len() - 1] == r[j]);
            }
        }
        // has_idx both ways
        assert forall|x: usize| #[trigger] has_idx(r, x) implies (has_idx(s, x) || g.idx == x) by {
            let j = choose|j: int| 0 <= j < r.len() && r[j].idx == x;
            if j < r0.len() {
                assert(has_idx(r0, x));
                if has_idx(s.drop_last(), x) {
                    let k = choose|k: int| 0 <= k < s.drop_last().len() && s.drop_last()[k].idx == x;
                    assert(s[k].idx == x);
                }
            } else {
                assert(s[s.len() - 1].idx == x);
            }
        }
        assert forall|x: usize| has_idx(s, x) || g.idx == x implies #[trigger] has_idx(r, x) by {
            if has_idx(s, x) {
                let k = choose|k: int| 0 <= k < s.len() && s[k].idx == x;
                if k < s.len() - 1 {
                    assert(s.drop_last()[k].idx == x);
                    assert(has_idx(r0, x));
                    let j = choose|j: int| 0 <= j < r0.len() && r0[j].idx == x;
                    assert(r[j].idx == x);
                } else {
                    assert(r[r0.len() as int].idx == x);
                }
            } else {
                assert(has_idx(r0, x));
                let j = choose|j: int| 0 <= j < r0.len() && r0[j].idx == x;
                assert(r[j].idx == x);
            }
        }
        // distinctness
        if idx_distinct(s) && !has_idx(s, g.idx) {
            assert(idx_distinct(s.drop_last())) by {
                assert(forall|p: int, q: int|
                    0 <= p < q < s.drop_last().len() ==> s[p].idx != s[q].idx);
            }
            assert(!has_idx(s.drop_last(), g.idx)) by {
                if has_idx(s.drop_last(), g.idx) {
                    let k = choose|k: int|
                        0 <= k < s.drop_last().len() && s.drop_last()[k].idx == g.idx;
                    assert(s[k].idx == g.idx);
                }
            }
            assert(idx_distinct(r0));
            assert forall|p: int, q: int| 0 <= p < q < r.len() implies r[p].idx != r[q].idx by {
                if q < r0.len() {
                    assert(r0[p].idx != r0[q].idx);
                } else {
                    // r[q] is s.last(); r[p] is in r0, whose idx is in drop_last or g
                    assert(r0[p] == g || (exists|k: int|
                        0 <= k < s.drop_last().len() && s.drop_last()[k] == r0[p]));
                    if r0[p] == g {
                        assert(s[s.len() - 1].idx != g.idx) by {
                            if s[s.len() - 1].idx == g.idx {
                                assert(has_idx(s, g.idx));
                            }
                        }
                    } else {
                        let k = choose|k: int|
                            0 <= k < s.drop_last().len() && s.drop_last()[k] == r0[p];
                        assert(s[k].idx != s[s.len() - 1].idx);
                    }
                }
            }
        }
    }
}

/// Sorting keeps the length, the weight sum, the elements and the set of
/// group identities, and keeps identities distinct.
pub proof fn lemma_sort_props(s: Seq<GroupStats>)
    ensures
        spec_sort(s).len() == s.len(),
        sum_ru_snap(spec_sort(s)) == sum_ru_snap(s),
        forall|j: int|
            0 <= j < spec_sort(s).len() ==> exists|k: int|
                0 <= k < s.len() && s[k] == #[trigger] spec_sort(s)[j],
        idx_distinct(s) ==> idx_distinct(spec_sort(s)),
        forall|x: usize| #[trigger] has_idx(spec_sort(s), x) <==> has_idx(s, x),
    decreases s.len(),
{
    if s.len() > 0 {
        let s0 = s.drop_last();
        let r0 = spec_sort(s0);
        lemma_sort_props(s0);
        lemma_spec_insert_props(r0, s.last());
        let r = spec_sort(s);
        assert(forall|k: int| 0 <= k < s0.len() ==> #[trigger] s0[k] == s[k]);
        assert(sum_ru_snap(r) == sum_ru_snap(r0) + s.last().ru_quota);
        // elements
        assert forall|j: int|
            0 <= j < r.len() implies exists|k: int| 0 <= k < s.len() && s[k] == #[trigger] r[j] by {
            if r[j] == s.last() {
                assert(s[s.len() - 1] == r[j]);
            } else {
                let k0 = choose|k0: int| 0 <= k0 < r0.len() && r0[k0] == r[j];
                let k = choose|k: int| 0 <= k < s0.len() && s0[k] == r0[k0];
                assert(s[k] == r[j]);
            }
        }
        // has_idx
        assert forall|x: usize| #[trigger] has_idx(r, x) implies has_idx(s, x) by {
            if has_idx(r0, x) && !(s.last().idx == x) {
                assert(has_idx(s0, x));
                let k = choose|k: int| 0 <= k < s0.len() && s0[k].idx == x;
                assert(s[k].idx == x);
            } else if s.last().idx == x {
                assert(s[s.len() - 1].idx == x);
            } else {
                assert(has_idx(r0, x) || s.last().idx == x);
            }
        }
        assert forall|x: usize| has_idx(s, x) implies #[trigger] has_idx(r, x) by {
            let k = choose|k: int| 0 <= k < s.len() && s[k].idx == x;
            if k < s.len() - 1 {
                assert(s0[k].idx == x);
                assert(has_idx(r0, x));
            } else {
                assert(s.last().idx == x);
            }
        }
        // distinctness
        if idx_distinct(s) {
            assert(idx_distinct(s0)) by {
                assert(forall|p: int, q: int| 0 <= p < q < s0.len() ==> s[p].idx != s[q].idx);
            }
            assert(!has_idx(r0, s.last().idx)) by {
                if has_idx(r0, s.last().idx) {
                    assert(has_idx(s0, s.last().idx));
                    let k = choose|k: int| 0 <= k < s0.len() && s0[k].idx == s.last().idx;
                    assert(s[k].idx == s[s.len() - 1].idx);
                }
            }
        }
    }
}

/// Pointwise-equal weights give equal prefix sums.
proof fn lemma_sum_ru_same(a: Seq<ResourceGroup>, b: Seq<ResourceGroup>, n: int)
    requires
        n <= a.len(),
        n <= b.len(),
        forall|i: int| 0 <= i < n ==> a[i].ru_quota == b[i].ru_quota,
    ensures
        sum_ru_upto(a, n) == sum_ru_upto(b, n),
    decreases n,
{
    if n > 0 {
        lemma_sum_ru_same(a, b, n - 1);
    }
}

/// A registry that agrees with a well-formed one on shape is well-formed.
pub proof fn lemma_same_shape_wf(o: ResourceGroupManager, w: ResourceGroupManager)
    requires
        o.wf(),
        same_shape(o, w),
    ensures
        w.wf(),
{
    lemma_sum_ru_same(o.groups@, w.groups@, o.groups@.len() as int);
}

/// Sets every participating sub-limiter of dimension `t` to uncapped.
fn set_all_unlimited(m: &mut ResourceGroupManager, t: ResourceType)
    requires
        old(m).wf(),
    ensures
        final(m).wf(),
        same_shape(*old(m), *final(m)),
        dim_rates_unchanged(*old(m), *final(m), t.spec_other()),
        forall|i: int|
            is_bg(*old(m), i) ==> spec_sub_of(*final(m), i, t).rate_limit is Unlimited,
{
    let n = m.groups.len();
    let mut i: usize = 0;
    while i < n
        invariant
            old(m).wf(),
            n == m.groups@.len(),
            i <= n,
            m.groups@.len() == old(m).groups@.len(),
            forall|j: int| i <= j < n ==> m.groups@[j] == old(m).groups@[j],
            forall|j: int|
                0 <= j < i ==> m.groups@[j] == (if old(m).groups@[j].limiter is Some {
                    spec_with_rate(old(m).groups@[j], t, RateLimit::Unlimited)
                } else {
                    old(m).groups@[j]
                }),
        decreases n - i,
    {
        if m.groups[i].limiter.is_some() {
            set_group_rate_limit(m, i, t, RateLimit::Unlimited);
        }
        i = i + 1;
    }
    proof {
        assert(same_shape(*old(m), *final(m)));
        lemma_same_shape_wf(*old(m), *final(m));
    }
}

/// `a - b` clamped at zero, over mathematical integers.
pub open spec fn sat_clamp(a: int, b: int) -> int {
    if a >= b {
        a - b
    } else {
        0
    }
}

/// Compares `g.expected_cost / g.ru_quota` with `avail / total_ru`
/// exactly, by cross-multiplication. Returns the strict order of the
/// group's per-unit ask against the average fair rate.
fn ask_above_average(g: &GroupStats, avail: u64, total_ru: u64) -> (r: bool)
    ensures
        r == (g.expected_cost * total_ru > avail * g.ru_quota),
{
    proof {
        assert(g.expected_cost as int * total_ru as int <= u64::MAX as int * u64::MAX as int
            && avail as int * g.ru_quota as int <= u64::MAX as int * u64::MAX as int)
            by (nonlinear_arith)
            requires
                g.expected_cost as int <= u64::MAX as int,
                total_ru as int <= u64::MAX as int,
                avail as int <= u64::MAX as int,
                g.ru_quota as int <= u64::MAX as int,
        ;
    }
    (g.expected_cost as u128) * (total_ru as u128) > (avail as u128) * (g.ru_quota as u128)
}

/// Same comparison, strict in the other direction.
fn ask_below_average(g: &GroupStats, avail: u64, total_ru: u64) -> (r: bool)
    ensures
        r == (g.expected_cost * total_ru < avail * g.ru_quota),
{
    proof {
        assert(g.expected_cost as int * total_ru as int <= u64::MAX as int * u64::MAX as int
            && avail as int * g.ru_quota as int <= u64::MAX as int * u64::MAX as int)
            by (nonlinear_arith)
            requires
                g.expected_cost as int <= u64::MAX as int,
                total_ru as int <= u64::MAX as int,
                avail as int <= u64::MAX as int,
                g.ru_quota as int <= u64::MAX as int,
        ;
    }
    (g.expected_cost as u128) * (total_ru as u128) < (avail as u128) * (g.ru_quota as u128)
}

/// The state the two passes leave the registry in: every snapshot entry's
/// sub-limiter of dimension `t` is set to its computed limit, and nothing
/// else has changed.
pub open spec fn limits_applied(
    o: ResourceGroupManager,
    w: ResourceGroupManager,
    t: ResourceType,
    sorted: Seq<GroupStats>,
    limits: Seq<int>,
) -> bool {
    &&& w.groups@.len() == o.groups@.len()
    &&& forall|k: int|
        0 <= k < sorted.len() ==> w.groups@[sorted[k].idx as int] == spec_with_rate(
            o.groups@[sorted[k].idx as int],
            t,
            RateLimit::Limited(limits[k] as u64),
        )
    &&& forall|i: int|
        0 <= i < o.groups@.len() && (forall|k: int| 0 <= k < sorted.len() ==> sorted[k].idx != i)
            ==> w.groups@[i] == o.groups@[i]
}

/// Both passes hand every entry one limit.
pub proof fn lemma_surplus_len(s: Seq<GroupStats>, avail: int, total_ru: int)
    ensures
        spec_surplus(s, avail, total_ru).len() == s.len(),
    decreases s.len(),
{
    if s.len() > 0 {
        let g = s.last();
        let limit = if total_ru > 0 && g.expected_cost * total_ru > avail * g.ru_quota {
            g.expected_cost as int
        } else {
            spec_fair(avail, total_ru, g.ru_quota as int)
        };
        let avail2 = if avail >= limit {
            avail - limit
        } else {
            0
        };
        let total2 = if total_ru >= g.ru_quota {
            total_ru - g.ru_quota
        } else {
            0
        };
        lemma_surplus_len(s.drop_last(), avail2, total2);
    }
}

/// Both passes hand every entry one limit.
pub proof fn lemma_deficit_len(s: Seq<GroupStats>, avail: int, total_ru: int)
    ensures
        spec_deficit(s, avail, total_ru).len() == s.len(),
    decreases s.len(),
{
    if s.len() > 0 {
        let g = s[0];
        let limit = if total_ru > 0 && g.expected_cost * total_ru < avail * g.ru_quota {
            g.expected_cost as int
        } else {
            spec_fair(avail, total_ru, g.ru_quota as int)
        };
        let avail2 = if avail >= limit {
            avail - limit
        } else {
            0
        };
        let total2 = if total_ru >= g.ru_quota {
            total_ru - g.ru_quota
        } else {
            0
        };
        lemma_deficit_len(s.drop_first(), avail2, total2);
    }
}

/// A registry in the `limits_applied` state agrees in shape with where it
/// started.
proof fn lemma_applied_same_shape(
    o: ResourceGroupManager,
    w: ResourceGroupManager,
    t: ResourceType,
    sorted: Seq<GroupStats>,
    limits: Seq<int>,
)
    requires
        forall|k: int|
            0 <= k < sorted.len() ==> is_bg(o, (#[trigger] sorted[k]).idx as int),
        limits_applied(o, w, t, sorted, limits),
    ensures
        same_shape(o, w),
{
    assert forall|i: int| 0 <= i < o.groups@.len() implies {
        &&& (#[trigger] w.groups@[i]).name@ == o.groups@[i].name@
        &&& w.groups@[i].ru_quota == o.groups@[i].ru_quota
        &&& (w.groups@[i].limiter is Some <==> o.groups@[i].limiter is Some)
        &&& (o.groups@[i].limiter is Some ==> {
            &&& spec_sub_of(w, i, ResourceType::Cpu).statistics == spec_sub_of(
                o,
                i,
                ResourceType::Cpu,
            ).statistics
            &&& spec_sub_of(w, i, ResourceType::Io).statistics == spec_sub_of(
                o,
                i,
                ResourceType::Io,
            ).statistics
        })
    } by {
        if exists|k: int| 0 <= k < sorted.len() && (#[trigger] sorted[k]).idx == i {
            let k = choose|k: int| 0 <= k < sorted.len() && (#[trigger] sorted[k]).idx == i;
            assert(w.groups@[i] == spec_with_rate(
                o.groups@[i],
                t,
                RateLimit::Limited(limits[k] as u64),
            ));
        } else {
            assert(forall|k: int| 0 <= k < sorted.len() ==> (#[trigger] sorted[k]).idx != i);
            assert(w.groups@[i] == o.groups@[i]);
        }
    }
}

/// The surplus pass over the sorted snapshot, heaviest ask first.
fn apply_surplus(
    m: &mut ResourceGroupManager,
    t: ResourceType,
    sorted: &Vec<GroupStats>,
    avail0: u64,
    total0: u64,
)
    requires
        old(m).wf(),
        forall|k: int|
            0 <= k < sorted@.len() ==> is_bg(*old(m), (#[trigger] sorted@[k]).idx as int)
                && sorted@[k].ru_quota >= 1,
        idx_distinct(sorted@),
        total0 as int == sum_ru_snap(sorted@),
    ensures
        final(m).wf(),
        same_shape(*old(m), *final(m)),
        limits_applied(
            *old(m),
            *final(m),
            t,
            sorted@,
            spec_surplus(sorted@, avail0 as int, total0 as int),
        ),
{
    let ghost full = spec_surplus(sorted@, avail0 as int, total0 as int);
    let n = sorted.len();
    let mut avail: u64 = avail0;
    let mut total: u64 = total0;
    let mut j: usize = n;
    proof {
        lemma_surplus_len(sorted@, avail0 as int, total0 as int);
        assert(sorted@.take(n as int) =~= sorted@);
        assert(full.take(n as int) =~= full);
    }
    while j > 0
        invariant
            old(m).wf(),
            n == sorted@.len(),
            full == spec_surplus(sorted@, avail0 as int, total0 as int),
            full.len() == n,
            j <= n,
            forall|k: int|
                0 <= k < sorted@.len() ==> is_bg(*old(m), (#[trigger] sorted@[k]).idx as int)
                    && sorted@[k].ru_quota >= 1,
            idx_distinct(sorted@),
            total as int == sum_ru_snap(sorted@.take(j as int)),
            spec_surplus(sorted@.take(j as int), avail as int, total as int) == full.take(j as int),
            m.groups@.len() == old(m).groups@.len(),
            forall|k: int|
                j <= k < n ==> m.groups@[sorted@[k].idx as int] == spec_with_rate(
                    old(m).groups@[sorted@[k].idx as int],
                    t,
                    RateLimit::Limited(full[k] as u64),
                ),
            forall|i: int|
                0 <= i < old(m).groups@.len() && (forall|k: int|
                    j <= k < n ==> sorted@[k].idx != i) ==> m.groups@[i] == old(m).groups@[i],
        decreases j,
    {
        let g = sorted[j - 1];
        proof {
            assert(forall|k: int|
                0 <= k < j ==> #[trigger] sorted@.take(j as int)[k] == sorted@[k]);
            assert(sorted@.take(j as int).last() == g);
            assert(sorted@.take(j as int).drop_last() =~= sorted@.take(j as int - 1));
            assert(forall|k: int|
                0 <= k < j - 1 ==> #[trigger] sorted@.take(j as int - 1)[k] == sorted@[k]);
            lemma_sum_ru_snap_lower(sorted@.take(j as int));
            lemma_sum_ru_snap_lower(sorted@.take(j as int - 1));
            assert(sum_ru_snap(sorted@.take(j as int)) == sum_ru_snap(sorted@.take(j as int - 1))
                + g.ru_quota);
        }
        let limit: u64 = if ask_above_average(&g, avail, total) {
            g.expected_cost
        } else {
            mul_div(avail, g.ru_quota, total)
        };
        proof {
            assert(spec_surplus(sorted@.take(j as int), avail as int, total as int)
                == spec_surplus(sorted@.take(j as int - 1), sat_clamp(avail as int, limit as int),
                    sat_clamp(total as int, g.ru_quota as int)).push(limit as int));
            assert(full.take(j as int).last() == full[j as int - 1]);
            assert(full.take(j as int).drop_last() =~= full.take(j as int - 1));
            assert(full[j as int - 1] == limit as int);
            assert(spec_surplus(sorted@.take(j as int - 1), sat_clamp(avail as int, limit as int),
                sat_clamp(total as int, g.ru_quota as int)) =~= full.take(j as int - 1));
        }
        set_group_rate_limit(m, g.idx, t, RateLimit::Limited(limit));
        avail = sat_sub(avail, limit);
        total = sat_sub(total, g.ru_quota);
        j = j - 1;
    }
    proof {
        assert(sorted@.take(0int) =~= Seq::<GroupStats>::empty());
        lemma_applied_same_shape(*old(m), *final(m), t, sorted@, full);
        lemma_same_shape_wf(*old(m), *final(m));
    }
}

/// The deficit pass over the sorted snapshot, lightest ask first.
fn apply_deficit(
    m: &mut ResourceGroupManager,
    t: ResourceType,
    sorted: &Vec<GroupStats>,
    avail0: u64,
    total0: u64,
)
    requires
        old(m).wf(),
        forall|k: int|
            0 <= k < sorted@.len() ==> is_bg(*old(m), (#[trigger] sorted@[k]).idx as int)
                && sorted@[k].ru_quota >= 1,
        idx_distinct(sorted@),
        total0 as int == sum_ru_snap(sorted@),
    ensures
        final(m).wf(),
        same_shape(*old(m), *final(m)),
        limits_applied(
            *old(m),
            *final(m),
            t,
            sorted@,
            spec_deficit(sorted@, avail0 as int, total0 as int),
        ),
{
    let ghost full = spec_deficit(sorted@, avail0 as int, total0 as int);
    let n = sorted.len();
    let mut avail: u64 = avail0;
    let mut total: u64 = total0;
    let mut j: usize = 0;
    proof {
        lemma_deficit_len(sorted@, avail0 as int, total0 as int);
        assert(sorted@.skip(0int) =~= sorted@);
        assert(full.skip(0int) =~= full);
    }
    while j < n
        invariant
            old(m).wf(),
            n == sorted@.len(),
            full == spec_deficit(sorted@, avail0 as int, total0 as int),
            full.len() == n,
            j <= n,
            forall|k: int|
                0 <= k < sorted@.len() ==> is_bg(*old(m), (#[trigger] sorted@[k]).idx as int)
                    && sorted@[k].ru_quota >= 1,
            idx_distinct(sorted@),
            total as int == sum_ru_snap(sorted@.skip(j as int)),
            spec_deficit(sorted@.skip(j as int), avail as int, total as int) == full.skip(j as int),
            m.groups@.len() == old(m).groups@.len(),
            forall|k: int|
                0 <= k < j ==> m.groups@[sorted@[k].idx as int] == spec_with_rate(
                    old(m).groups@[sorted@[k].idx as int],
                    t,
                    RateLimit::Limited(full[k] as u64),
                ),
            forall|i: int|
                0 <= i < old(m).groups@.len() && (forall|k: int|
                    0 <= k < j ==> sorted@[k].idx != i) ==> m.groups@[i] == old(m).groups@[i],
        decreases n - j,
    {
        let g = sorted[j];
        proof {
            assert(forall|k: int|
                0 <= k < n - j ==> #[trigger] sorted@.skip(j as int)[k] == sorted@[k + j]);
            assert(sorted@.skip(j as int)[0] == g);
            assert(sorted@.skip(j as int).drop_first() =~= sorted@.skip(j as int + 1));
            assert(forall|k: int|
                0 <= k < n - j - 1 ==> #[trigger] sorted@.skip(j as int + 1)[k] == sorted@[k + j
                    + 1]);
            lemma_sum_ru_snap_lower(sorted@.skip(j as int));
            lemma_sum_ru_snap_lower(sorted@.skip(j as int + 1));
            lemma_sum_ru_snap_front(sorted@.skip(j as int));
        }
        let limit: u64 = if ask_below_average(&g, avail, total) {
            g.expected_cost
        } else {
            mul_div(avail, g.ru_quota, total)
        };
        proof {
            let rest = spec_deficit(sorted@.skip(j as int + 1), sat_clamp(avail as int,
                limit as int), sat_clamp(total as int, g.ru_quota as int));
            assert(spec_deficit(sorted@.skip(j as int), avail as int, total as int) == seq![
                limit as int,
            ] + rest);
            assert((seq![limit as int] + rest)[0] == limit as int);
            assert((seq![limit as int] + rest).drop_first() =~= rest);
            assert(full.skip(j as int)[0] == full[j as int]);
            assert(full.skip(j as int).drop_first() =~= full.skip(j as int + 1));
            assert(full[j as int] == limit as int);
            assert(rest =~= full.skip(j as int + 1));
        }
        set_group_rate_limit(m, g.idx, t, RateLimit::Limited(limit));
        avail = sat_sub(avail, limit);
        total = sat_sub(total, g.ru_quota);
        j = j + 1;
    }
    proof {
        assert(sorted@.skip(n as int) =~= Seq::<GroupStats>::empty());
        lemma_applied_same_shape(*old(m), *final(m), t, sorted@, full);
        lemma_same_shape_wf(*old(m), *final(m));
    }
}

/// The adjuster. It owns the registry and, per dimension, the previous
/// counter baselines and the sticky low-load flag.
#[derive(Debug)]
pub struct GroupQuotaAdjustWorker {
    pub resource_ctl: ResourceGroupManager,
    pub prev_stats_cpu: PrevStats,
    pub prev_stats_io: PrevStats,
    pub last_adjust_time_ms: u64,
    pub is_last_time_low_load_cpu: bool,
    pub is_last_time_low_load_io: bool,
}

impl GroupQuotaAdjustWorker {
    /// The baselines of one dimension.
    pub open spec fn spec_prev(self, t: ResourceType) -> Seq<(String, GroupStatistics)> {
        match t {
            ResourceType::Cpu => self.prev_stats_cpu.entries@,
            ResourceType::Io => self.prev_stats_io.entries@,
        }
    }

    /// The sticky low-load flag of one dimension.
    pub open spec fn spec_low(self, t: ResourceType) -> bool {
        match t {
            ResourceType::Cpu => self.is_last_time_low_load_cpu,
            ResourceType::Io => self.is_last_time_low_load_io,
        }
    }

    /// Well-formedness: the registry and both baseline stores are.
    pub open spec fn wf(self) -> bool {
        &&& self.resource_ctl.wf()
        &&& self.prev_stats_cpu.wf()
        &&& self.prev_stats_io.wf()
    }

    /// A fresh worker around a registry: no baselines, flags down, clock
    /// at `now_ms`.
    pub fn new(resource_ctl: ResourceGroupManager, now_ms: u64) -> (r: GroupQuotaAdjustWorker)
        requires
            resource_ctl.wf(),
        ensures
            r.wf(),
            r.resource_ctl == resource_ctl,
            r.prev_stats_cpu.entries@.len() == 0,
            r.prev_stats_io.entries@.len() == 0,
            r.last_adjust_time_ms == now_ms,
            !r.is_last_time_low_load_cpu,
            !r.is_last_time_low_load_io,
    {
        GroupQuotaAdjustWorker {
            resource_ctl,
            prev_stats_cpu: PrevStats::new(),
            prev_stats_io: PrevStats::new(),
            last_adjust_time_ms: now_ms,
            is_last_time_low_load_cpu: false,
            is_last_time_low_load_io: false,
        }
    }
}

/// Dimension `t` of the worker is untouched: baselines, flag and every
/// participating setpoint.
pub open spec fn unchanged_dim(
    o: GroupQuotaAdjustWorker,
    w: GroupQuotaAdjustWorker,
    t: ResourceType,
) -> bool {
    &&& w.spec_prev(t) == o.spec_prev(t)
    &&& w.spec_low(t) == o.spec_low(t)
    &&& dim_rates_unchanged(o.resource_ctl, w.resource_ctl, t)
}

/// The baselines of dimension `t` now hold, for every participating
/// group, the counters that group reported, and are otherwise untouched.
pub open spec fn prev_updated(
    o: GroupQuotaAdjustWorker,
    w: GroupQuotaAdjustWorker,
    t: ResourceType,
) -> bool {
    forall|nm: Seq<char>|
        #[trigger] spec_lookup(w.spec_prev(t), nm) == (match spec_find(
            o.resource_ctl.groups@,
            nm,
        ) {
            Some(k) => if 0 <= k < o.resource_ctl.groups@.len()
                && o.resource_ctl.groups@[k].limiter is Some {
                Some(spec_sub_of(o.resource_ctl, k, t).statistics)
            } else {
                spec_lookup(o.spec_prev(t), nm)
            },
            None => spec_lookup(o.spec_prev(t), nm),
        })
}

/// What one dimension's adjustment step does, for a measurement that
/// succeeded. Three cases: an unbounded dimension uncaps every
/// participating sub-limiter; a second consecutive quiet tick (low load,
/// nobody waiting, flag already up) leaves every setpoint alone; any other
/// tick refreshes the flag and writes the allocation computed from the
/// snapshot, sorted by per-unit ask, under the surplus or the deficit
/// pass.
pub open spec fn adjusted_dim(
    o: GroupQuotaAdjustWorker,
    w: GroupQuotaAdjustWorker,
    t: ResourceType,
    dur_ms: int,
    stats: ResourceUsageStats,
) -> bool {
    let m = o.resource_ctl;
    let snap = snapshot_upto(m, o.spec_prev(t), t, dur_ms, m.groups@.len() as int);
    if stats.total_quota == 0 {
        &&& forall|i: int|
            is_bg(m, i) ==> spec_sub_of(w.resource_ctl, i, t).rate_limit is Unlimited
        &&& w.spec_prev(t) == o.spec_prev(t)
        &&& w.spec_low(t) == o.spec_low(t)
    } else if spec_low_load(stats) && !spec_has_wait(snap) && o.spec_low(t) {
        &&& prev_updated(o, w, t)
        &&& w.spec_low(t) == o.spec_low(t)
        &&& dim_rates_unchanged(m, w.resource_ctl, t)
    } else {
        let avail = avail_spec(
            stats.total_quota as int,
            stats.current_used as int,
            sum_cons_sat(snap),
        );
        let total_ru = sum_ru_snap(snap);
        let sorted = spec_sort(snap);
        let limits = if sum_exp_sat(snap) <= avail {
            spec_surplus(sorted, avail, total_ru)
        } else {
            spec_deficit(sorted, avail, total_ru)
        };
        &&& prev_updated(o, w, t)
        &&& w.spec_low(t) == spec_low_load(stats)
        &&& forall|k: int|
            0 <= k < sorted.len() ==> spec_sub_of(
                w.resource_ctl,
                (#[trigger] sorted[k]).idx as int,
                t,
            ).rate_limit == RateLimit::Limited(limits[k] as u64)
    }
}

impl GroupQuotaAdjustWorker {
    /// Walks the registry once: reads every participating group's
    /// cumulative counters, takes the delta against the stored baseline
    /// (the counters themselves on first sight), refreshes the baseline,
    /// scales the delta to a per-second rate and prices the expected cost.
    /// Returns the snapshot together with the wait flag, the total weight,
    /// the total consumption and the total expected cost.
    fn build_snapshot(&mut self, t: ResourceType, dur_ms: u64) -> (r: (
        Vec<GroupStats>,
        bool,
        u64,
        u64,
        u64,
    ))
        requires
            old(self).wf(),
            dur_ms >= 1,
        ensures
            final(self).wf(),
            ({
                let snap = snapshot_upto(
                    old(self).resource_ctl,
                    old(self).spec_prev(t),
                    t,
                    dur_ms as int,
                    old(self).resource_ctl.groups@.len() as int,
                );
                &&& r.0@ == snap
                &&& r.1 == spec_has_wait(snap)
                &&& r.2 as int == sum_ru_snap(snap)
                &&& r.3 as int == sum_cons_sat(snap)
                &&& r.4 as int == sum_exp_sat(snap)
            }),
            final(self).resource_ctl == old(self).resource_ctl,
            final(self).last_adjust_time_ms == old(self).last_adjust_time_ms,
            final(self).is_last_time_low_load_cpu == old(self).is_last_time_low_load_cpu,
            final(self).is_last_time_low_load_io == old(self).is_last_time_low_load_io,
            final(self).spec_prev(t.spec_other()) == old(self).spec_prev(t.spec_other()),
            prev_updated(*old(self), *final(self), t),
    {
        let ghost om = old(self).resource_ctl;
        let ghost oprev = old(self).spec_prev(t);
        let n = self.resource_ctl.groups.len();
        let mut snap: Vec<GroupStats> = Vec::new();
        let mut has_wait = false;
        let mut total_ru: u64 = 0;
        let mut consumed: u64 = 0;
        let mut expected_total: u64 = 0;
        let mut i: usize = 0;
        while i < n
            invariant
                old(self).wf(),
                self.resource_ctl == om,
                om == old(self).resource_ctl,
                oprev == old(self).spec_prev(t),
                self.resource_ctl.wf(),
                self.prev_stats_cpu.wf(),
                self.prev_stats_io.wf(),
                self.last_adjust_time_ms == old(self).last_adjust_time_ms,
                self.is_last_time_low_load_cpu == old(self).is_last_time_low_load_cpu,
                self.is_last_time_low_load_io == old(self).is_last_time_low_load_io,
                self.spec_prev(t.spec_other()) == old(self).spec_prev(t.spec_other()),
                n == om.groups@.len(),
                i <= n,
                dur_ms >= 1,
                snap@ == snapshot_upto(om, oprev, t, dur_ms as int, i as int),
                has_wait == spec_has_wait(snap@),
                total_ru as int == sum_ru_snap(snap@),
                consumed as int == sum_cons_sat(snap@),
                expected_total as int == sum_exp_sat(snap@),
                forall|nm: Seq<char>|
                    #[trigger] spec_lookup(self.spec_prev(t), nm) == (match spec_find(
                        om.groups@,
                        nm,
                    ) {
                        Some(k) => if 0 <= k < i && om.groups@[k].limiter is Some {
                            Some(spec_sub_of(om, k, t).statistics)
                        } else {
                            spec_lookup(oprev, nm)
                        },
                        None => spec_lookup(oprev, nm),
                    }),
            decreases n - i,
        {
            if self.resource_ctl.groups[i].limiter.is_some() {
                let name = self.resource_ctl.groups[i].name.clone();
                let ru = self.resource_ctl.groups[i].ru_quota;
                let lim = self.resource_ctl.groups[i].limiter.unwrap();
                let cum = lim.get_statistics(t);
                let rl = lim.get_rate_limit(t);
                proof {
                    crate::registry::lemma_spec_find_at(om.groups@, name@, i as int);
                }
                let prev_opt = match t {
                    ResourceType::Cpu => self.prev_stats_cpu.get(&name),
                    ResourceType::Io => self.prev_stats_io.get(&name),
                };
                proof {
                    assert(spec_lookup(self.spec_prev(t), name@) == spec_lookup(oprev, name@));
                    assert(prev_opt == spec_lookup(oprev, name@));
                }
                let delta = match prev_opt {
                    Some(p) => cum.saturating_delta(&p),
                    None => cum,
                };
                match t {
                    ResourceType::Cpu => self.prev_stats_cpu.put(&name, cum),
                    ResourceType::Io => self.prev_stats_io.put(&name, cum),
                }
                let rate = delta.per_second(dur_ms);
                let wait_term = mul_div(rate.total_wait_dur_us, rl.cost_rate(), 1_000_000);
                let exp = sat_add(rate.total_consumed, wait_term);
                let gs = GroupStats { idx: i, ru_quota: ru, stats: rate, expected_cost: exp };
                proof {
                    assert(gs == spec_group_snap(om, oprev, t, dur_ms as int, i as int));
                    assert(snapshot_upto(om, oprev, t, dur_ms as int, i as int + 1) == snap@.push(
                        gs,
                    ));
                    lemma_snapshot_props(om, oprev, t, dur_ms as int, i as int + 1);
                    lemma_sum_ru_upto_mono(om.groups@, i as int + 1, n as int);
                    assert(snap@.push(gs).drop_last() =~= snap@);
                    assert(sum_ru_snap(snap@.push(gs)) == sum_ru_snap(snap@) + ru);
                }
                total_ru = total_ru + ru;
                consumed = sat_add(consumed, rate.total_consumed);
                expected_total = sat_add(expected_total, exp);
                let new_wait = rate.total_wait_dur_us > 0;
                proof {
                    if new_wait {
                        assert(snap@.push(gs)[snap@.len() as int] == gs);
                        assert(spec_has_wait(snap@.push(gs)));
                    } else if has_wait {
                        let j = choose|j: int|
                            0 <= j < snap@.len() && snap@[j].stats.total_wait_dur_us > 0;
                        assert(snap@.push(gs)[j] == snap@[j]);
                        assert(spec_has_wait(snap@.push(gs)));
                    } else {
                        assert forall|j: int|
                            0 <= j < snap@.push(gs).len() implies !(snap@.push(
                            gs,
                        )[j].stats.total_wait_dur_us > 0) by {
                            if j < snap@.len() {
                                assert(snap@.push(gs)[j] == snap@[j]);
                            }
                        }
                    }
                }
                if new_wait {
                    has_wait = true;
                }
                snap.push(gs);
                proof {
                    assert forall|nm: Seq<char>|
                        #[trigger] spec_lookup(self.spec_prev(t), nm) == (match spec_find(
                            om.groups@,
                            nm,
                        ) {
                            Some(k) => if 0 <= k < i + 1 && om.groups@[k].limiter is Some {
                                Some(spec_sub_of(om, k, t).statistics)
                            } else {
                                spec_lookup(oprev, nm)
                            },
                            None => spec_lookup(oprev, nm),
                        }) by {
                        if nm == name@ {
                            assert(spec_find(om.groups@, nm) == Some(i as int));
                        } else {
                            match spec_find(om.groups@, nm) {
                                Some(k) => {
                                    crate::registry::lemma_spec_find_matches_search(
                                        om.groups@,
                                        nm,
                                    );
                                    assert(k != i as int);
                                },
                                None => {},
                            }
                        }
                    }
                }
            } else {
                proof {
                    assert(snapshot_upto(om, oprev, t, dur_ms as int, i as int + 1)
                        == snapshot_upto(om, oprev, t, dur_ms as int, i as int));
                }
            }
            i = i + 1;
        }
        proof {
            assert forall|nm: Seq<char>|
                #[trigger] spec_lookup(final(self).spec_prev(t), nm) == (match spec_find(
                    old(self).resource_ctl.groups@,
                    nm,
                ) {
                    Some(k) => if 0 <= k < old(self).resource_ctl.groups@.len() && old(
                        self,
                    ).resource_ctl.groups@[k].limiter is Some {
                        Some(spec_sub_of(old(self).resource_ctl, k, t).statistics)
                    } else {
                        spec_lookup(old(self).spec_prev(t), nm)
                    },
                    None => spec_lookup(old(self).spec_prev(t), nm),
                }) by {
                assert(spec_lookup(self.spec_prev(t), nm) == (match spec_find(om.groups@, nm) {
                    Some(k) => if 0 <= k < n && om.groups@[k].limiter is Some {
                        Some(spec_sub_of(om, k, t).statistics)
                    } else {
                        spec_lookup(oprev, nm)
                    },
                    None => spec_lookup(oprev, nm),
                }));
            }
            assert(prev_updated(*old(self), *final(self), t));
        }
        (snap, has_wait, total_ru, consumed, expected_total)
    }
}

/// The debounce interval: the time since the previous tick, clamped at
/// zero for a clock that stepped backwards.
pub open spec fn spec_dur(now_ms: int, last_ms: int) -> int {
    if now_ms >= last_ms {
        now_ms - last_ms
    } else {
        0
    }
}

/// Whether any group participates in background limiting.
fn has_background(m: &ResourceGroupManager) -> (r: bool)
    ensures
        r == exists|i: int| is_bg(*m, i),
{
    let n = m.groups.len();
    let mut i: usize = 0;
    while i < n
        invariant
            n == m.groups@.len(),
            i <= n,
            forall|j: int| 0 <= j < i ==> !(m.groups@[j].limiter is Some),
        decreases n - i,
    {
        if m.groups[i].limiter.is_some() {
            proof {
                assert(is_bg(*m, i as int));
            }
            return true;
        }
        i = i + 1;
    }
    false
}

/// Two registries of the same shape that agree on this dimension's
/// setpoints produce the same snapshot.
proof fn lemma_snapshot_same(
    a: ResourceGroupManager,
    b: ResourceGroupManager,
    prev: Seq<(String, GroupStatistics)>,
    t: ResourceType,
    dur_ms: int,
    n: int,
)
    requires
        same_shape(a, b),
        dim_rates_unchanged(a, b, t),
        n <= a.groups@.len(),
    ensures
        snapshot_upto(b, prev, t, dur_ms, n) == snapshot_upto(a, prev, t, dur_ms, n),
    decreases n,
{
    if n > 0 {
        lemma_snapshot_same(a, b, prev, t, dur_ms, n - 1);
        if a.groups@[n - 1].limiter is Some {
            assert(is_bg(a, n - 1));
            assert(spec_sub_of(b, n - 1, t).rate_limit == spec_sub_of(a, n - 1, t).rate_limit);
            assert(spec_sub_of(b, n - 1, t).statistics == spec_sub_of(a, n - 1, t).statistics);
            assert(spec_group_snap(b, prev, t, dur_ms, n - 1) == spec_group_snap(
                a,
                prev,
                t,
                dur_ms,
                n - 1,
            ));
        }
    }
}

/// Group sequences with pointwise-equal names are searched alike.
proof fn lemma_spec_find_same_names(a: Seq<ResourceGroup>, b: Seq<ResourceGroup>, nm: Seq<char>)
    requires
        a.len() == b.len(),
        forall|i: int| 0 <= i < a.len() ==> (#[trigger] a[i]).name@ == b[i].name@,
    ensures
        spec_find(b, nm) == spec_find(a, nm),
    decreases a.len(),
{
    if a.len() > 0 && a[0].name@ != nm {
        assert(forall|i: int|
            0 <= i < a.drop_first().len() ==> (#[trigger] a.drop_first()[i]) == a[i + 1]);
        assert(forall|i: int|
            0 <= i < b.drop_first().len() ==> (#[trigger] b.drop_first()[i]) == b[i + 1]);
        lemma_spec_find_same_names(a.drop_first(), b.drop_first(), nm);
    }
}

/// A later, untouched dimension still satisfies the adjustment predicate
/// against the state it actually ran from.
proof fn lemma_adjusted_frame_post(
    o: GroupQuotaAdjustWorker,
    mid: GroupQuotaAdjustWorker,
    fin: GroupQuotaAdjustWorker,
    t: ResourceType,
    dur_ms: int,
    stats: ResourceUsageStats,
)
    requires
        adjusted_dim(o, mid, t, dur_ms, stats),
        unchanged_dim(mid, fin, t),
        same_shape(o.resource_ctl, mid.resource_ctl),
        same_shape(mid.resource_ctl, fin.resource_ctl),
    ensures
        adjusted_dim(o, fin, t, dur_ms, stats),
{
    let m = o.resource_ctl;
    assert(forall|i: int| is_bg(m, i) ==> is_bg(mid.resource_ctl, i));
    assert(fin.spec_prev(t) == mid.spec_prev(t));
    assert(fin.spec_low(t) == mid.spec_low(t));
    assert forall|i: int| is_bg(m, i) implies spec_sub_of(fin.resource_ctl, i, t).rate_limit
        == spec_sub_of(mid.resource_ctl, i, t).rate_limit by {
        assert(is_bg(mid.resource_ctl, i));
    }
    let snap = snapshot_upto(m, o.spec_prev(t), t, dur_ms, m.groups@.len() as int);
    if stats.total_quota == 0 {
    } else if spec_low_load(stats) && !spec_has_wait(snap) && o.spec_low(t) {
    } else {
        let sorted = spec_sort(snap);
        lemma_snapshot_props(m, o.spec_prev(t), t, dur_ms, m.groups@.len() as int);
        lemma_sort_props(snap);
        assert forall|k: int| 0 <= k < sorted.len() implies is_bg(
            m,
            (#[trigger] sorted[k]).idx as int,
        ) by {
            let j = choose|j: int| 0 <= j < snap.len() && snap[j] == sorted[k];
        }
    }
}

/// An adjustment that ran from a state whose inputs for this dimension
/// match an earlier state also satisfies the predicate against that
/// earlier state.
proof fn lemma_adjusted_frame_pre(
    o: GroupQuotaAdjustWorker,
    mid: GroupQuotaAdjustWorker,
    fin: GroupQuotaAdjustWorker,
    t: ResourceType,
    dur_ms: int,
    stats: ResourceUsageStats,
)
    requires
        unchanged_dim(o, mid, t),
        same_shape(o.resource_ctl, mid.resource_ctl),
        adjusted_dim(mid, fin, t, dur_ms, stats),
    ensures
        adjusted_dim(o, fin, t, dur_ms, stats),
{
    let ma = o.resource_ctl;
    let mb = mid.resource_ctl;
    let n = ma.groups@.len() as int;
    lemma_snapshot_same(ma, mb, o.spec_prev(t), t, dur_ms, n);
    assert(mid.spec_prev(t) == o.spec_prev(t));
    let snap = snapshot_upto(ma, o.spec_prev(t), t, dur_ms, n);
    assert(snapshot_upto(mb, mid.spec_prev(t), t, dur_ms, mb.groups@.len() as int) == snap);
    assert(forall|i: int| is_bg(ma, i) <==> is_bg(mb, i));
    if stats.total_quota == 0 {
    } else if spec_low_load(stats) && !spec_has_wait(snap) && o.spec_low(t) {
        assert(o.spec_low(t) == mid.spec_low(t));
        assert forall|i: int| is_bg(ma, i) implies spec_sub_of(fin.resource_ctl, i, t).rate_limit
            == spec_sub_of(ma, i, t).rate_limit by {
            assert(is_bg(mb, i));
            assert(spec_sub_of(fin.resource_ctl, i, t).rate_limit == spec_sub_of(
                mb,
                i,
                t,
            ).rate_limit);
            assert(spec_sub_of(mb, i, t).rate_limit == spec_sub_of(ma, i, t).rate_limit);
        }
        // the baselines written by the tick match either way
        assert forall|nm: Seq<char>|
            #[trigger] spec_lookup(fin.spec_prev(t), nm) == (match spec_find(ma.groups@, nm) {
                Some(k) => if 0 <= k < ma.groups@.len() && ma.groups@[k].limiter is Some {
                    Some(spec_sub_of(ma, k, t).statistics)
                } else {
                    spec_lookup(o.spec_prev(t), nm)
                },
                None => spec_lookup(o.spec_prev(t), nm),
            }) by {
            lemma_spec_find_same_names(ma.groups@, mb.groups@, nm);
        }
    } else {
        assert forall|nm: Seq<char>|
            #[trigger] spec_lookup(fin.spec_prev(t), nm) == (match spec_find(ma.groups@, nm) {
                Some(k) => if 0 <= k < ma.groups@.len() && ma.groups@[k].limiter is Some {
                    Some(spec_sub_of(ma, k, t).statistics)
                } else {
                    spec_lookup(o.spec_prev(t), nm)
                },
                None => spec_lookup(o.spec_prev(t), nm),
            }) by {
            lemma_spec_find_same_names(ma.groups@, mb.groups@, nm);
        }
    }
}

impl GroupQuotaAdjustWorker {
    /// One dimension's control step, with the measurement already taken.
    /// See `adjusted_dim` for what it leaves behind; nothing of the other
    /// dimension, of the clock, or of the registry's structure changes.
    #[verifier::rlimit(100)]
    pub fn do_adjust(&mut self, t: ResourceType, dur_ms: u64, stats: ResourceUsageStats)
        requires
            old(self).wf(),
            dur_ms >= 1000,
        ensures
            final(self).wf(),
            same_shape(old(self).resource_ctl, final(self).resource_ctl),
            final(self).last_adjust_time_ms == old(self).last_adjust_time_ms,
            unchanged_dim(*old(self), *final(self), t.spec_other()),
            adjusted_dim(*old(self), *final(self), t, dur_ms as int, stats),
    {
        let ghost om = old(self).resource_ctl;
        let ghost oprev = old(self).spec_prev(t);
        let n = self.resource_ctl.groups.len();
        if stats.total_quota == 0 {
            set_all_unlimited(&mut self.resource_ctl, t);
            return ;
        }
        let (snap, has_wait, total_ru, consumed, expected_total) = self.build_snapshot(t, dur_ms);
        let is_low = ((stats.current_used as u128) * 10) <= (stats.total_quota as u128);
        let last_low = match t {
            ResourceType::Cpu => self.is_last_time_low_load_cpu,
            ResourceType::Io => self.is_last_time_low_load_io,
        };
        if is_low && !has_wait && last_low {
            return ;
        }
        match t {
            ResourceType::Cpu => {
                self.is_last_time_low_load_cpu = is_low;
            },
            ResourceType::Io => {
                self.is_last_time_low_load_io = is_low;
            },
        }
        let avail = available_quota(stats.total_quota, stats.current_used, consumed);
        let sorted = sort_groups(&snap);
        let ghost snapg = snapshot_upto(om, oprev, t, dur_ms as int, n as int);
        proof {
            lemma_snapshot_props(om, oprev, t, dur_ms as int, n as int);
            lemma_sort_props(snapg);
            assert(idx_distinct(snapg)) by {
                assert(forall|j: int, k: int|
                    0 <= j < k < snapg.len() ==> snapg[j].idx < snapg[k].idx);
            }
            assert forall|k: int| 0 <= k < sorted@.len() implies is_bg(
                om,
                (#[trigger] sorted@[k]).idx as int,
            ) && sorted@[k].ru_quota >= 1 by {
                let j = choose|j: int| 0 <= j < snapg.len() && snapg[j] == sorted@[k];
                assert(snapg[j] == spec_group_snap(om, oprev, t, dur_ms as int, snapg[j].idx as int));
                assert(om.groups@[snapg[j].idx as int].ru_quota >= 1);
            }
        }
        if expected_total <= avail {
            apply_surplus(&mut self.resource_ctl, t, &sorted, avail, total_ru);
        } else {
            apply_deficit(&mut self.resource_ctl, t, &sorted, avail, total_ru);
        }
        proof {
            let limits = if sum_exp_sat(snapg) <= avail_spec(
                stats.total_quota as int,
                stats.current_used as int,
                sum_cons_sat(snapg),
            ) {
                spec_surplus(sorted@, avail as int, total_ru as int)
            } else {
                spec_deficit(sorted@, avail as int, total_ru as int)
            };
            assert forall|k: int| 0 <= k < sorted@.len() implies spec_sub_of(
                final(self).resource_ctl,
                (#[trigger] sorted@[k]).idx as int,
                t,
            ).rate_limit == RateLimit::Limited(limits[k] as u64) by {
                assert(final(self).resource_ctl.groups@[sorted@[k].idx as int] == spec_with_rate(
                    om.groups@[sorted@[k].idx as int],
                    t,
                    RateLimit::Limited(limits[k] as u64),
                ));
            }
            assert forall|i: int| is_bg(om, i) implies spec_sub_of(
                final(self).resource_ctl,
                i,
                t.spec_other(),
            ).rate_limit == spec_sub_of(om, i, t.spec_other()).rate_limit by {
                if exists|k: int| 0 <= k < sorted@.len() && (#[trigger] sorted@[k]).idx == i {
                    let k = choose|k: int|
                        0 <= k < sorted@.len() && (#[trigger] sorted@[k]).idx == i;
                    assert(final(self).resource_ctl.groups@[i] == spec_with_rate(
                        om.groups@[i],
                        t,
                        RateLimit::Limited(limits[k] as u64),
                    ));
                } else {
                    assert(forall|k: int|
                        0 <= k < sorted@.len() ==> (#[trigger] sorted@[k]).idx != i);
                    assert(final(self).resource_ctl.groups@[i] == om.groups@[i]);
                }
            }
        }
    }

    /// One tick of the control loop, with the clock and both measurements
    /// handed in (`None` for a measurement that failed: that dimension is
    /// skipped). Debounced: a tick under a second after the previous one
    /// only moves the clock. A tick with no participating group does the
    /// same. Otherwise CPU is adjusted first, then I/O, each as
    /// `adjusted_dim` describes.
    pub fn adjust_quota(
        &mut self,
        now_ms: u64,
        cpu_stats: Option<ResourceUsageStats>,
        io_stats: Option<ResourceUsageStats>,
    )
        requires
            old(self).wf(),
        ensures
            final(self).wf(),
            final(self).last_adjust_time_ms == now_ms,
            same_shape(old(self).resource_ctl, final(self).resource_ctl),
            ({
                let dur = spec_dur(now_ms as int, old(self).last_adjust_time_ms as int);
                let skipped = dur < 1000 || !(exists|i: int| is_bg(old(self).resource_ctl, i));
                &&& (skipped ==> {
                    &&& final(self).resource_ctl == old(self).resource_ctl
                    &&& final(self).prev_stats_cpu.entries@ == old(self).prev_stats_cpu.entries@
                    &&& final(self).prev_stats_io.entries@ == old(self).prev_stats_io.entries@
                    &&& final(self).is_last_time_low_load_cpu == old(
                        self,
                    ).is_last_time_low_load_cpu
                    &&& final(self).is_last_time_low_load_io == old(self).is_last_time_low_load_io
                })
                &&& (!skipped ==> {
                    &&& (match cpu_stats {
                        Some(s) => adjusted_dim(
                            *old(self),
                            *final(self),
                            ResourceType::Cpu,
                            dur,
                            s,
                        ),
                        None => unchanged_dim(*old(self), *final(self), ResourceType::Cpu),
                    })
                    &&& (match io_stats {
                        Some(s) => adjusted_dim(*old(self), *final(self), ResourceType::Io, dur, s),
                        None => unchanged_dim(*old(self), *final(self), ResourceType::Io),
                    })
                })
            }),
    {
        let dur_ms = if now_ms >= self.last_adjust_time_ms {
            now_ms - self.last_adjust_time_ms
        } else {
            0
        };
        self.last_adjust_time_ms = now_ms;
        if dur_ms < 1000 {
            return ;
        }
        if !has_background(&self.resource_ctl) {
            return ;
        }
        let ghost w0 = *self;
        match cpu_stats {
            Some(s) => self.do_adjust(ResourceType::Cpu, dur_ms, s),
            None => {},
        }
        let ghost w1 = *self;
        match io_stats {
            Some(s) => self.do_adjust(ResourceType::Io, dur_ms, s),
            None => {},
        }
        proof {
            let o = *old(self);
            let fin = *final(self);
            assert(w0.resource_ctl == o.resource_ctl);
            assert(w0.spec_prev(ResourceType::Cpu) == o.spec_prev(ResourceType::Cpu));
            assert(w0.spec_prev(ResourceType::Io) == o.spec_prev(ResourceType::Io));
            match cpu_stats {
                Some(s) => {
                    assert(adjusted_dim(w0, w1, ResourceType::Cpu, dur_ms as int, s));
                    lemma_adjusted_substate(w0, o, w1, ResourceType::Cpu, dur_ms as int, s);
                    match io_stats {
                        Some(_) => {
                            lemma_adjusted_frame_post(
                                o,
                                w1,
                                fin,
                                ResourceType::Cpu,
                                dur_ms as int,
                                s,
                            );
                        },
                        None => {},
                    }
                },
                None => {},
            }
            match io_stats {
                Some(s) => {
                    assert(adjusted_dim(w1, fin, ResourceType::Io, dur_ms as int, s));
                    lemma_adjusted_frame_pre(o, w1, fin, ResourceType::Io, dur_ms as int, s);
                },
                None => {},
            }
        }
    }
}

/// States that differ at most in the clock adjust alike.
proof fn lemma_adjusted_substate(
    o1: GroupQuotaAdjustWorker,
    o2: GroupQuotaAdjustWorker,
    w: GroupQuotaAdjustWorker,
    t: ResourceType,
    dur_ms: int,
    stats: ResourceUsageStats,
)
    requires
        o1.resource_ctl == o2.resource_ctl,
        o1.prev_stats_cpu.entries@ == o2.prev_stats_cpu.entries@,
        o1.prev_stats_io.entries@ == o2.prev_stats_io.entries@,
        o1.is_last_time_low_load_cpu == o2.is_last_time_low_load_cpu,
        o1.is_last_time_low_load_io == o2.is_last_time_low_load_io,
        adjusted_dim(o1, w, t, dur_ms, stats),
    ensures
        adjusted_dim(o2, w, t, dur_ms, stats),
{
    assert(o1.spec_prev(t) == o2.spec_prev(t));
    assert(o1.spec_low(t) == o2.spec_low(t));
}

} // verus!
