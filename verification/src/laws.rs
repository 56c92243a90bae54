//! Laws of the allocation: the processing order is total, sorting
//! produces that order, and the surplus pass never hands out more than
//! the available headroom.

use vstd::prelude::*;

use crate::limiter::{ResourceType, ResourceUsageStats};
use crate::worker::{
    adjusted_dim, cost_lt, dim_rates_unchanged, snapshot_upto, spec_fair, spec_has_wait,
    spec_insert, spec_low_load, spec_sort, spec_surplus, sum_ru_snap, GroupStats,
    GroupQuotaAdjustWorker, lemma_sort_props, lemma_sum_ru_snap_lower,
};

verus! {

/// The snapshot is in processing order: no later entry precedes an
/// earlier one.
pub open spec fn sorted_by_cost(s: Seq<GroupStats>) -> bool {
    forall|i: int, j: int| 0 <= i < j < s.len() ==> !cost_lt(s[j], s[i])
}

/// The processing order is total: any two snapshot entries compare, one
/// way or the other, unless they agree on both the cross-multiplied
/// per-unit ask and the registry position. Every comparison is an integer
/// comparison, so the sort meets no unordered pair.
pub proof fn lemma_cost_order_total(a: GroupStats, b: GroupStats)
    ensures
        cost_lt(a, b) || cost_lt(b, a) || (a.expected_cost * b.ru_quota == b.expected_cost
            * a.ru_quota && a.idx == b.idx),
{
}

/// No entry precedes itself.
pub proof fn lemma_cost_order_irreflexive(a: GroupStats)
    ensures
        !cost_lt(a, a),
{
}

/// The processing order chains, given positive weights.
pub proof fn lemma_cost_order_transitive(a: GroupStats, b: GroupStats, c: GroupStats)
    requires
        a.ru_quota >= 1,
        b.ru_quota >= 1,
        c.ru_quota >= 1,
        cost_lt(a, b),
        cost_lt(b, c),
    ensures
        cost_lt(a, c),
{
    let ea = a.expected_cost as int;
    let ra = a.ru_quota as int;
    let eb = b.expected_cost as int;
    let rb = b.ru_quota as int;
    let ec = c.expected_cost as int;
    let rc = c.ru_quota as int;
    if ea * rb < eb * ra {
        if eb * rc < ec * rb {
            assert(ea * rc < ec * ra) by (nonlinear_arith)
                requires
                    ra >= 1,
                    rb >= 1,
                    rc >= 1,
                    ea * rb < eb * ra,
                    eb * rc < ec * rb,
                    ea >= 0,
                    eb >= 0,
                    ec >= 0,
            ;
        } else {
            assert(eb * rc == ec * rb);
            assert(ea * rc < ec * ra) by (nonlinear_arith)
                requires
                    ra >= 1,
                    rb >= 1,
                    rc >= 1,
                    ea * rb < eb * ra,
                    eb * rc == ec * rb,
            ;
        }
    } else {
        assert(ea * rb == eb * ra && a.idx < b.idx);
        if eb * rc < ec * rb {
            assert(ea * rc < ec * ra) by (nonlinear_arith)
                requires
                    ra >= 1,
                    rb >= 1,
                    rc >= 1,
                    ea * rb == eb * ra,
                    eb * rc < ec * rb,
            ;
        } else {
            assert(eb * rc == ec * rb && b.idx < c.idx);
            assert(ea * rc == ec * ra) by (nonlinear_arith)
                requires
                    ra >= 1,
                    rb >= 1,
                    rc >= 1,
                    ea * rb == eb * ra,
                    eb * rc == ec * rb,
            ;
        }
    }
}

/// Inserting into an ordered sequence keeps it ordered.
proof fn lemma_insert_sorted(s: Seq<GroupStats>, g: GroupStats)
    requires
        sorted_by_cost(s),
        forall|j: int| 0 <= j < s.len() ==> (#[trigger] s[j]).ru_quota >= 1,
        g.ru_quota >= 1,
    ensures
        sorted_by_cost(spec_insert(s, g)),
    decreases s.len(),
{
    let r = spec_insert(s, g);
    if s.len() == 0 {
        assert(r =~= seq![g]);
    } else if cost_lt(s.last(), g) {
        assert(r == s.push(g));
        assert forall|i: int, j: int| 0 <= i < j < r.len() implies !cost_lt(r[j], r[i]) by {
            if j == s.len() {
                assert(r[j] == g);
                assert(r[i] == s[i]);
                if cost_lt(g, s[i]) {
                    if i < s.len() - 1 {
                        lemma_cost_order_transitive(s.last(), g, s[i]);
                        assert(!cost_lt(s.last(), s[i]));
                    } else {
                        lemma_cost_order_transitive(s.last(), g, s.last());
                        lemma_cost_order_irreflexive(s.last());
                    }
                }
            } else {
                assert(r[i] == s[i] && r[j] == s[j]);
            }
        }
    } else {
        let s0 = s.drop_last();
        let r0 = spec_insert(s0, g);
        assert(forall|k: int| 0 <= k < s0.len() ==> #[trigger] s0[k] == s[k]);
        lemma_insert_sorted(s0, g);
        crate::worker::lemma_spec_insert_props(s0, g);
        assert(r == r0.push(s.last()));
        assert forall|i: int, j: int| 0 <= i < j < r.len() implies !cost_lt(r[j], r[i]) by {
            if j == r0.len() {
                assert(r[j] == s.last());
                assert(r[i] == r0[i]);
                if r0[i] == g {
                    assert(!cost_lt(s.last(), g));
                } else {
                    let k = choose|k: int| 0 <= k < s0.len() && s0[k] == r0[i];
                    assert(!cost_lt(s.last(), s[k]));
                }
            } else {
                assert(r[i] == r0[i] && r[j] == r0[j]);
            }
        }
    }
}

/// Sorting the snapshot produces the processing order.
pub proof fn lemma_sort_sorted(s: Seq<GroupStats>)
    requires
        forall|j: int| 0 <= j < s.len() ==> (#[trigger] s[j]).ru_quota >= 1,
    ensures
        sorted_by_cost(spec_sort(s)),
    decreases s.len(),
{
    if s.len() > 0 {
        let s0 = s.drop_last();
        assert(forall|k: int| 0 <= k < s0.len() ==> #[trigger] s0[k] == s[k]);
        lemma_sort_sorted(s0);
        lemma_sort_props(s0);
        assert forall|j: int| 0 <= j < spec_sort(s0).len() implies (#[trigger] spec_sort(
            s0,
        )[j]).ru_quota >= 1 by {
            let k = choose|k: int| 0 <= k < s0.len() && s0[k] == spec_sort(s0)[j];
        }
        lemma_insert_sorted(spec_sort(s0), s.last());
    }
}

/// Sum of a sequence of granted limits.
pub open spec fn seq_sum(l: Seq<int>) -> int
    decreases l.len(),
{
    if l.len() == 0 {
        0
    } else {
        seq_sum(l.drop_last()) + l.last()
    }
}

/// Exact total expected cost of a snapshot.
pub open spec fn sum_exp(s: Seq<GroupStats>) -> int
    decreases s.len(),
{
    if s.len() == 0 {
        0
    } else {
        sum_exp(s.drop_last()) + s.last().expected_cost
    }
}

proof fn lemma_sum_exp_nonneg(s: Seq<GroupStats>)
    ensures
        sum_exp(s) >= 0,
    decreases s.len(),
{
    if s.len() > 0 {
        lemma_sum_exp_nonneg(s.drop_last());
    }
}

/// When every entry's per-unit ask is at most `e / r`, the total ask is
/// at most `e / r` of the total weight.
proof fn lemma_sum_exp_key_bound(s: Seq<GroupStats>, e: int, r: int)
    requires
        r >= 1,
        e >= 0,
        forall|j: int|
            0 <= j < s.len() ==> (#[trigger] s[j]).expected_cost * r <= e * s[j].ru_quota,
    ensures
        sum_exp(s) * r <= e * sum_ru_snap(s),
    decreases s.len(),
{
    if s.len() > 0 {
        let s0 = s.drop_last();
        assert(forall|k: int| 0 <= k < s0.len() ==> #[trigger] s0[k] == s[k]);
        lemma_sum_exp_key_bound(s0, e, r);
        let g = s.last();
        assert(sum_exp(s) * r == sum_exp(s0) * r + g.expected_cost * r) by (nonlinear_arith)
            requires
                sum_exp(s) == sum_exp(s0) + g.expected_cost,
        ;
        assert(e * sum_ru_snap(s) == e * sum_ru_snap(s0) + e * g.ru_quota) by (nonlinear_arith)
            requires
                sum_ru_snap(s) == sum_ru_snap(s0) + g.ru_quota,
        ;
    }
}

/// The surplus pass stays within its budget and starves nobody: when the
/// total expected cost fits into the available headroom and the snapshot
/// is in processing order, the granted limits are non-negative, they sum
/// to at most the headroom, every group receives at least its expected
/// cost, and each turn grants the weight-proportional fair share of what
/// is then left unless the group's ask exceeds it, in which case the ask
/// itself is granted.
pub proof fn lemma_surplus_allocation_bounded(s: Seq<GroupStats>, avail: int, total_ru: int)
    requires
        sorted_by_cost(s),
        forall|j: int| 0 <= j < s.len() ==> (#[trigger] s[j]).ru_quota >= 1,
        total_ru == sum_ru_snap(s),
        0 <= avail,
        sum_exp(s) <= avail,
    ensures
        seq_sum(spec_surplus(s, avail, total_ru)) <= avail,
        forall|k: int| 0 <= k < s.len() ==> #[trigger] spec_surplus(s, avail, total_ru)[k] >= 0,
        forall|k: int|
            0 <= k < s.len() ==> #[trigger] spec_surplus(s, avail, total_ru)[k]
                >= s[k].expected_cost,
        s.len() > 0 ==> {
            let g = s.last();
            let limit = spec_surplus(s, avail, total_ru).last();
            (limit == spec_fair(avail, total_ru, g.ru_quota as int) && g.expected_cost * total_ru
                <= avail * g.ru_quota) || (limit == g.expected_cost && g.expected_cost * total_ru
                > avail * g.ru_quota)
        },
    decreases s.len(),
{
    crate::worker::lemma_surplus_len(s, avail, total_ru);
    if s.len() > 0 {
        let g = s.last();
        let e = g.expected_cost as int;
        let r = g.ru_quota as int;
        let s0 = s.drop_last();
        assert(forall|k: int| 0 <= k < s0.len() ==> #[trigger] s0[k] == s[k]);
        lemma_sum_ru_snap_lower(s);
        lemma_sum_ru_snap_lower(s0);
        lemma_sum_exp_nonneg(s0);
        assert(total_ru >= r + s0.len());
        assert(sum_exp(s) == sum_exp(s0) + e);
        let above = e * total_ru > avail * r;
        let limit = if total_ru > 0 && above {
            e
        } else {
            spec_fair(avail, total_ru, r)
        };
        let avail2 = if avail >= limit {
            avail - limit
        } else {
            0
        };
        let total2 = if total_ru >= r {
            total_ru - r
        } else {
            0
        };
        assert(total2 == total_ru - r);
        if above {
            assert(limit == e);
            assert(e <= avail);
            assert(avail2 == avail - e);
            assert(sum_exp(s0) <= avail2);
        } else {
            assert(e * total_ru <= avail * r);
            assert(limit == spec_fair(avail, total_ru, r));
            assert(limit * total_ru <= avail * r) by (nonlinear_arith)
                requires
                    total_ru >= 1,
                    limit <= avail * r / total_ru,
                    avail >= 0,
                    r >= 1,
            ;
            assert(limit <= avail) by (nonlinear_arith)
                requires
                    total_ru >= 1,
                    r <= total_ru,
                    limit * total_ru <= avail * r,
                    limit >= 0,
                    avail >= 0,
            ;
            assert(avail2 == avail - limit);
            // every earlier entry asks at most e / r per unit
            assert forall|j: int|
                0 <= j < s0.len() implies (#[trigger] s0[j]).expected_cost * r <= e
                * s0[j].ru_quota by {
                assert(!cost_lt(s[s.len() - 1], s[j]));
            }
            lemma_sum_exp_key_bound(s0, e, r);
            assert(sum_exp(s0) <= avail2) by (nonlinear_arith)
                requires
                    sum_exp(s0) * r <= e * (total_ru - r),
                    e * total_ru <= avail * r,
                    limit * total_ru <= avail * r,
                    avail2 == avail - limit,
                    total_ru >= 1,
                    r >= 1,
                    total_ru - r >= 0,
                    sum_exp(s0) >= 0,
                    limit >= 0,
            ;
        }
        if !above {
            // a below-average ask is covered by the fair share
            vstd::arithmetic::div_mod::lemma_fundamental_div_mod(avail * r, total_ru);
            assert(e <= avail * r / total_ru) by (nonlinear_arith)
                requires
                    e * total_ru <= avail * r,
                    avail * r == total_ru * (avail * r / total_ru) + (avail * r) % total_ru,
                    0 <= (avail * r) % total_ru < total_ru,
                    total_ru >= 1,
            ;
            assert(limit >= e);
        }
        assert(limit >= 0) by {
            if !above {
                assert(spec_fair(avail, total_ru, r) >= 0) by (nonlinear_arith)
                    requires
                        total_ru >= 1,
                        avail >= 0,
                        r >= 1,
                        spec_fair(avail, total_ru, r) == crate::arith::cap64(
                            avail * r / total_ru,
                        ),
                ;
            }
        }
        assert(sorted_by_cost(s0));
        lemma_surplus_allocation_bounded(s0, avail2, total2);
        let inner = spec_surplus(s0, avail2, total2);
        let full = spec_surplus(s, avail, total_ru);
        assert(full == inner.push(limit));
        assert(full.drop_last() =~= inner);
        assert(full.last() == limit);
        assert(seq_sum(full) == seq_sum(inner) + limit);
        assert(seq_sum(full) <= avail2 + limit);
        assert(avail2 + limit <= avail);
        assert forall|k: int| 0 <= k < s.len() implies #[trigger] full[k] >= 0 && full[k]
            >= s[k].expected_cost by {
            if k < s0.len() {
                assert(full[k] == inner[k]);
                assert(inner[k] >= s0[k].expected_cost);
            }
        }
    }
}

/// Generalized convergence bound, carried through the recursion: when no
/// entry has demand, the running headroom stays proportional to the
/// running weight, up to one unit of slack per processed entry.
proof fn lemma_zero_demand_rel(
    s: Seq<GroupStats>,
    avail: int,
    total_ru: int,
    a0: int,
    t0: int,
    p: int,
)
    requires
        forall|j: int| 0 <= j < s.len() ==> (#[trigger] s[j]).expected_cost == 0,
        forall|j: int| 0 <= j < s.len() ==> (#[trigger] s[j]).ru_quota >= 1,
        total_ru == sum_ru_snap(s),
        0 <= avail <= u64::MAX,
        t0 >= 1,
        a0 >= 0,
        p >= 0,
        avail * t0 >= a0 * total_ru,
        avail * t0 <= a0 * total_ru + p * t0,
    ensures
        forall|k: int|
            #![trigger spec_surplus(s, avail, total_ru)[k]]
            0 <= k < s.len() ==> spec_surplus(s, avail, total_ru)[k] * t0 >= a0 * s[k].ru_quota
                - t0 && spec_surplus(s, avail, total_ru)[k] * t0 <= a0 * s[k].ru_quota + (p + (
            s.len() - 1 - k)) * t0,
    decreases s.len(),
{
    crate::worker::lemma_surplus_len(s, avail, total_ru);
    if s.len() > 0 {
        let g = s.last();
        let r = g.ru_quota as int;
        let s0 = s.drop_last();
        assert(forall|k: int| 0 <= k < s0.len() ==> #[trigger] s0[k] == s[k]);
        lemma_sum_ru_snap_lower(s);
        lemma_sum_ru_snap_lower(s0);
        let t = total_ru;
        assert(t >= 1);
        assert(t >= r + s0.len());
        // no demand, so the ask is never above average
        assert(!(g.expected_cost * t > avail * r)) by (nonlinear_arith)
            requires
                g.expected_cost == 0,
                avail >= 0,
                r >= 1,
        ;
        let q = avail * r / t;
        vstd::arithmetic::div_mod::lemma_fundamental_div_mod(avail * r, t);
        assert(avail * r == t * q + (avail * r) % t);
        assert(0 <= (avail * r) % t < t);
        assert(q >= 0) by (nonlinear_arith)
            requires
                avail * r == t * q + (avail * r) % t,
                0 <= (avail * r) % t < t,
                avail >= 0,
                r >= 1,
                t >= 1,
                avail * r >= 0,
        ;
        assert(avail * r >= 0) by (nonlinear_arith)
            requires
                avail >= 0,
                r >= 0,
        ;
        assert(q * t <= avail * r) by (nonlinear_arith)
            requires
                avail * r == t * q + (avail * r) % t,
                0 <= (avail * r) % t,
        ;
        assert(q * t > avail * r - t) by (nonlinear_arith)
            requires
                avail * r == t * q + (avail * r) % t,
                (avail * r) % t < t,
        ;
        assert(q <= avail) by (nonlinear_arith)
            requires
                q * t <= avail * r,
                r <= t,
                t >= 1,
                q >= 0,
                avail >= 0,
        ;
        let limit = spec_fair(avail, t, r);
        assert(limit == q);
        let avail2 = avail - limit;
        let total2 = t - r;
        assert(avail2 >= 0);
        // bounds for the last entry
        assert(q * t * t0 <= (a0 * t + p * t0) * r) by (nonlinear_arith)
            requires
                q * t <= avail * r,
                avail * t0 <= a0 * t + p * t0,
                t0 >= 1,
                r >= 1,
                avail >= 0,
                q >= 0,
                t >= 1,
        ;
        assert((a0 * t + p * t0) * r <= t * (a0 * r + p * t0)) by (nonlinear_arith)
            requires
                r <= t,
                p >= 0,
                t0 >= 1,
                a0 >= 0,
        ;
        assert(limit * t0 <= a0 * r + p * t0) by (nonlinear_arith)
            requires
                q * t * t0 <= t * (a0 * r + p * t0),
                t >= 1,
                limit == q,
        ;
        assert(limit * t0 >= a0 * r - t0) by (nonlinear_arith)
            requires
                q * t > avail * r - t,
                avail * t0 >= a0 * t,
                t >= 1,
                t0 >= 1,
                a0 >= 0,
                r >= 1,
                limit == q,
        ;
        // the running pair stays proportional
        assert(avail2 * t * t0 >= (avail * t0) * (t - r)) by (nonlinear_arith)
            requires
                q * t <= avail * r,
                avail2 == avail - q,
                t0 >= 1,
                t >= 1,
        ;
        assert((avail * t0) * (t - r) >= (a0 * t) * (t - r)) by (nonlinear_arith)
            requires
                avail * t0 >= a0 * t,
                t - r >= 0,
        ;
        assert(avail2 * t0 >= a0 * total2) by (nonlinear_arith)
            requires
                avail2 * t * t0 >= (a0 * t) * (t - r),
                total2 == t - r,
                t >= 1,
        ;
        assert(avail2 * t0 <= a0 * total2 + (p + 1) * t0) by (nonlinear_arith)
            requires
                q * t > avail * r - t,
                avail * t0 <= a0 * t + p * t0,
                avail2 == avail - q,
                total2 == t - r,
                0 <= total2 <= t,
                t >= 1,
                t0 >= 1,
                p >= 0,
                a0 >= 0,
        ;
        lemma_zero_demand_rel(s0, avail2, total2, a0, t0, p + 1);
        let inner = spec_surplus(s0, avail2, total2);
        let full = spec_surplus(s, avail, t);
        assert(full == inner.push(limit));
        assert(forall|k: int| 0 <= k < inner.len() ==> #[trigger] full[k] == inner[k]);
        assert(full[s.len() - 1] == limit);
    }
}

/// With frozen measurements and no consumption between ticks, every
/// group's delta and priced wait are zero, so the surplus pass runs with
/// no demand, and each granted limit is the group's weight-proportional
/// share of the available headroom, up to an absolute slack of one unit
/// per group: the setpoints have converged to the fair-share split.
pub proof fn lemma_zero_demand_fair_split(s: Seq<GroupStats>, avail: int, total_ru: int)
    requires
        forall|j: int| 0 <= j < s.len() ==> (#[trigger] s[j]).expected_cost == 0,
        forall|j: int| 0 <= j < s.len() ==> (#[trigger] s[j]).ru_quota >= 1,
        total_ru == sum_ru_snap(s),
        0 <= avail <= u64::MAX,
    ensures
        forall|k: int|
            #![trigger spec_surplus(s, avail, total_ru)[k]]
            0 <= k < s.len() ==> spec_surplus(s, avail, total_ru)[k] * total_ru >= avail
                * s[k].ru_quota - total_ru && spec_surplus(s, avail, total_ru)[k] * total_ru
                <= avail * s[k].ru_quota + (s.len() - 1 - k) * total_ru,
{
    if s.len() > 0 {
        lemma_sum_ru_snap_lower(s);
        lemma_zero_demand_rel(s, avail, total_ru, avail, total_ru, 0);
    }
}

/// Hysteresis: when foreground usage stays at or under 10% of the cap
/// and no group waits, across two consecutive ticks of one dimension,
/// the second tick leaves every setpoint unchanged. The first low tick
/// may still adjust; it raises the sticky flag that freezes the second.
pub proof fn lemma_quiet_second_tick_freezes(
    o: GroupQuotaAdjustWorker,
    w1: GroupQuotaAdjustWorker,
    w2: GroupQuotaAdjustWorker,
    t: ResourceType,
    dur1_ms: int,
    dur2_ms: int,
    stats: ResourceUsageStats,
)
    requires
        adjusted_dim(o, w1, t, dur1_ms, stats),
        adjusted_dim(w1, w2, t, dur2_ms, stats),
        stats.total_quota > 0,
        spec_low_load(stats),
        !spec_has_wait(
            snapshot_upto(
                w1.resource_ctl,
                w1.spec_prev(t),
                t,
                dur2_ms,
                w1.resource_ctl.groups@.len() as int,
            ),
        ),
    ensures
        dim_rates_unchanged(w1.resource_ctl, w2.resource_ctl, t),
{
    assert(w1.spec_low(t));
}

} // verus!
