//! What the policies are to make of a level: who gets how much of it, in terms of
//! what the makers hold and how long they have rested.

use crate::algorithms;
use crate::allocation;
use crate::allocation::FifoMatcher;
use crate::allocation::Fill;
use crate::allocation::Maker;
use crate::allocation::MatchingAlgorithm;
use crate::allocation::ProRataMatcher;
use crate::allocation::TimeProRataMatcher;
use crate::conduct;
use crate::instrument::Qty;
use crate::sums;
use crate::types::Order;
use vstd::prelude::*;

verus! {

// ---------------------------------------------------------------- by time

/// How many whole ticks a maker has rested at a time: none if it arrives later.
pub open spec fn ticks_rested(maker: Maker, now: u128, tick: u128) -> int {
    if now > maker.arrival {
        (now - maker.arrival) / (tick as int)
    } else {
        0
    }
}

/// What a maker holds times the ticks that it has rested, counted as one at least
/// and as the cap at most.
pub open spec fn dwell(matcher: TimeProRataMatcher, maker: Maker, now: u128) -> int {
    let rested = ticks_rested(maker, now, matcher.spec_tick());
    let counted = if rested < 1 {
        1
    } else if rested > matcher.spec_max_age() {
        matcher.spec_max_age() as int
    } else {
        rested
    };
    maker.remaining_quantity.base() * counted
}

/// The dwell of each maker.
pub open spec fn dwells(matcher: TimeProRataMatcher, makers: Seq<Maker>, now: u128) -> Seq<int> {
    Seq::new(makers.len(), |i: int| dwell(matcher, makers[i], now))
}

proof fn lemma_raw_is_dwell(matcher: TimeProRataMatcher, makers: Seq<Maker>, now: u128)
    requires
        matcher.wf(),
    ensures
        allocation::raw_weights(
            makers,
            now as int,
            matcher.spec_tick() as int,
            matcher.spec_max_age() as int,
        ) == dwells(matcher, makers, now),
        forall|i: int| 0 <= i < makers.len() ==> #[trigger] dwells(matcher, makers, now)[i] >= 0,
{
    let raw = allocation::raw_weights(
        makers,
        now as int,
        matcher.spec_tick() as int,
        matcher.spec_max_age() as int,
    );
    let tick = matcher.spec_tick() as int;
    let all = dwells(matcher, makers, now);
    assert forall|i: int| 0 <= i < makers.len() implies #[trigger] raw[i] == all[i] && all[i]
        >= 0 by {
        let m = makers[i];
        if now <= m.arrival {
            vstd::arithmetic::div_mod::lemma_div_of0(tick);
        }
        let counted = allocation::age(
            m.arrival as int,
            now as int,
            tick,
            matcher.spec_max_age() as int,
        );
        assert(m.remaining_quantity.base() * counted >= 0) by (nonlinear_arith)
            requires
                counted >= 0,
                m.remaining_quantity.base() >= 0,
        ;
    }
    assert(raw =~= all);
}

proof fn lemma_divisor_is_least(peak: int) -> (k: nat)
    requires
        peak >= 0,
    ensures
        allocation::scale_divisor(peak) == vstd::arithmetic::power2::pow2(k),
        peak <= u64::MAX ==> k == 0,
        peak / (vstd::arithmetic::power2::pow2(k) as int) <= u64::MAX,
        k > 0 ==> peak / (vstd::arithmetic::power2::pow2((k - 1) as nat) as int) > u64::MAX,
    decreases peak,
{
    if peak <= u64::MAX {
        vstd::arithmetic::power2::lemma2_to64();
        0
    } else {
        let k = lemma_divisor_is_least(peak / 2);
        vstd::arithmetic::power2::lemma_pow2_unfold((k + 1) as nat);
        vstd::arithmetic::power2::lemma_pow2_pos(k);
        vstd::arithmetic::div_mod::lemma_div_denominator(peak, 2, vstd::arithmetic::power2::pow2(k) as int);
        vstd::arithmetic::power2::lemma2_to64();
        if k > 0 {
            vstd::arithmetic::power2::lemma_pow2_unfold(k);
            vstd::arithmetic::power2::lemma_pow2_pos((k - 1) as nat);
            vstd::arithmetic::div_mod::lemma_div_denominator(
                peak,
                2,
                vstd::arithmetic::power2::pow2((k - 1) as nat) as int,
            );
            assert(2 * vstd::arithmetic::power2::pow2((k - 1) as nat) == vstd::arithmetic::power2::pow2(k));
        } else {
            assert(peak / 1 == peak);
        }
        assert(((k + 1) - 1) as nat == k);
        assert(peak / (vstd::arithmetic::power2::pow2(k) as int) > u64::MAX);
        (k + 1) as nat
    }
}

proof fn lemma_peak_is_one_of(s: Seq<int>) -> (i: int)
    requires
        s.len() > 0,
        forall|j: int| 0 <= j < s.len() ==> #[trigger] s[j] >= 0,
    ensures
        0 <= i < s.len(),
        s[i] == allocation::peak(s),
    decreases s.len(),
{
    let n = s.len() - 1;
    if n == 0 {
        assert(allocation::peak(s.drop_last()) == 0);
        0
    } else {
        let rest = s.drop_last();
        assert forall|j: int| 0 <= j < rest.len() implies #[trigger] rest[j] >= 0 by {
            assert(rest[j] == s[j]);
        }
        let i = lemma_peak_is_one_of(rest);
        if s.last() >= allocation::peak(rest) {
            n
        } else {
            assert(rest[i] == s[i]);
            i
        }
    }
}

/// Weights are size times time: each is what the maker holds times the ticks that
/// it has rested, one at least and the cap at most, divided by a power of two that
/// all of them share. That is the least which brings them down to 64 bits. No weight
/// is below one.
pub proof fn weights_are_size_times_time(
    matcher: TimeProRataMatcher,
    makers: Seq<Maker>,
    now: u128,
) -> (k: nat)
    requires
        matcher.wf(),
    ensures
        ({
            let weights = matcher.spec_weights(makers, now as int);
            &&& weights.len() == makers.len()
            &&& forall|i: int|
                0 <= i < makers.len() ==> #[trigger] weights[i] == (if dwell(
                    matcher,
                    makers[i],
                    now,
                ) / (vstd::arithmetic::power2::pow2(k) as int) < 1 {
                    1
                } else {
                    dwell(matcher, makers[i], now) / (vstd::arithmetic::power2::pow2(k) as int)
                })
            &&& forall|i: int| 0 <= i < makers.len() ==> 1 <= #[trigger] weights[i] <= u64::MAX
            &&& (forall|i: int|
                0 <= i < makers.len() ==> dwell(matcher, #[trigger] makers[i], now) <= u64::MAX)
                ==> k == 0
            &&& k > 0 ==> exists|i: int|
                0 <= i < makers.len() && dwell(matcher, #[trigger] makers[i], now) / (vstd::arithmetic::power2::pow2(
                    (k - 1) as nat,
                ) as int) > u64::MAX
        }),
{
    lemma_raw_is_dwell(matcher, makers, now);
    let raw = dwells(matcher, makers, now);
    let weights = matcher.spec_weights(makers, now as int);
    if raw.len() > 0 {
        allocation::lemma_peak(raw, 0);
    }
    let k = lemma_divisor_is_least(allocation::peak(raw));
    assert forall|i: int| 0 <= i < makers.len() implies 1 <= #[trigger] weights[i] <= u64::MAX by {
        allocation::lemma_scaled_weight(raw, i);
    }
    vstd::arithmetic::power2::lemma2_to64();
    if raw.len() > 0 {
        let top = lemma_peak_is_one_of(raw);
        assert(dwell(matcher, makers[top], now) == raw[top]);
    }
    k
}

/// Time counts in proportion: where neither maker has rested for less than a tick
/// or for longer than the cap, and no weight needs scaling, the weights of two makers
/// are to each other as what they hold times the ticks that they have rested.
pub proof fn weights_are_in_proportion_to_time(
    matcher: TimeProRataMatcher,
    makers: Seq<Maker>,
    now: u128,
    i: int,
    j: int,
)
    requires
        matcher.wf(),
        0 <= i < makers.len(),
        0 <= j < makers.len(),
        makers[i].remaining_quantity.base() > 0,
        makers[j].remaining_quantity.base() > 0,
        now > makers[i].arrival,
        now > makers[j].arrival,
        1 <= (now - makers[i].arrival) / (matcher.spec_tick() as int) <= matcher.spec_max_age(),
        1 <= (now - makers[j].arrival) / (matcher.spec_tick() as int) <= matcher.spec_max_age(),
        forall|m: int|
            0 <= m < makers.len() ==> dwell(matcher, #[trigger] makers[m], now) <= u64::MAX,
    ensures
        ({
            let tick = matcher.spec_tick() as int;
            let weights = matcher.spec_weights(makers, now as int);
            let size_i = makers[i].remaining_quantity.base();
            let size_j = makers[j].remaining_quantity.base();
            let time_i = (now - makers[i].arrival) / tick;
            let time_j = (now - makers[j].arrival) / tick;
            &&& weights[i] == size_i * time_i
            &&& weights[j] == size_j * time_j
            &&& weights[i] * (size_j * time_j) == weights[j] * (size_i * time_i)
        }),
{
    let tick = matcher.spec_tick() as int;
    let weights = matcher.spec_weights(makers, now as int);
    let k = weights_are_size_times_time(matcher, makers, now);
    vstd::arithmetic::power2::lemma2_to64();
    let a = makers[i].remaining_quantity.base() * ((now - makers[i].arrival) / tick);
    let b = makers[j].remaining_quantity.base() * ((now - makers[j].arrival) / tick);
    assert(dwell(matcher, makers[i], now) == a);
    assert(dwell(matcher, makers[j], now) == b);
    assert(a / 1 == a && b / 1 == b);
    assert(a >= 1) by (nonlinear_arith)
        requires
            a == makers[i].remaining_quantity.base() * ((now - makers[i].arrival) / tick),
            makers[i].remaining_quantity.base() >= 1,
            (now - makers[i].arrival) / tick >= 1,
    ;
    assert(b >= 1) by (nonlinear_arith)
        requires
            b == makers[j].remaining_quantity.base() * ((now - makers[j].arrival) / tick),
            makers[j].remaining_quantity.base() >= 1,
            (now - makers[j].arrival) / tick >= 1,
    ;
    assert(weights[i] == a && weights[j] == b);
    assert(a * b == b * a) by (nonlinear_arith);
}

// ---------------------------------------------------------------- shares of a pool

/// What some of the makers hold together.
pub open spec fn held_by(makers: Seq<Maker>, some: Seq<bool>) -> int {
    sums::sum(
        Seq::new(
            makers.len(),
            |i: int|
                if some[i] {
                    makers[i].remaining_quantity.base() as int
                } else {
                    0
                },
        ),
    )
}

/// The weights of all but some of the makers together.
pub open spec fn weight_without(weights: Seq<int>, some: Seq<bool>) -> int {
    sums::sum(
        Seq::new(
            weights.len(),
            |i: int|
                if some[i] {
                    0
                } else {
                    weights[i]
                },
        ),
    )
}

/// Whether what the makers got is a fair split of what there is. Some are full: they
/// got all that they hold, and their part of the rest would be no less. The others
/// share what is left of it by weight, each less than it holds, rounded down to whole
/// lots, and the lots that rounding leaves over go one each to those in front.
pub open spec fn is_fair_split(
    available: int,
    makers: Seq<Maker>,
    weights: Seq<int>,
    lot: int,
    got: Seq<int>,
    full: Seq<bool>,
) -> bool {
    let pool = available - held_by(makers, full);
    let whole = weight_without(weights, full);
    &&& full.len() == makers.len()
    &&& pool >= 0
    &&& whole > 0
    &&& forall|i: int|
        0 <= i < makers.len() ==> {
            let held = makers[i].remaining_quantity.base() as int;
            let part = pool * weights[i] / whole;
            let floor = (part / lot) * lot;
            if #[trigger] full[i] {
                got[i] == held && pool * weights[i] >= held * whole
            } else {
                part < held && (got[i] == floor || got[i] == floor + lot)
            }
        }
    &&& forall|i: int, j: int|
        #![trigger full[i], full[j]]
        0 <= i < j < makers.len() && !full[i] && !full[j] && got[j] == (pool * weights[j] / whole
            / lot) * lot + lot ==> got[i] == (pool * weights[i] / whole / lot) * lot + lot
}

/// What each maker gets of an allocation.
pub open spec fn given_to<M: MatchingAlgorithm>(
    matcher: M,
    available: Qty,
    makers: Seq<Maker>,
    now: u128,
) -> Seq<int> {
    Seq::new(
        makers.len(),
        |i: int| allocation::allotted(matcher.allocation(available, makers, now), i),
    )
}

/// Whoever is capped would not get less than it holds of what is left for the rest.
proof fn lemma_capped_earn(
    available: int,
    held: Seq<int>,
    weights: Seq<int>,
    capped: Seq<bool>,
    lot: int,
)
    requires
        allocation::round_ok(available, held, weights, capped, lot),
        forall|i: int|
            0 <= i < held.len() && #[trigger] capped[i] ==> allocation::pool_after(
                available,
                held,
                capped,
            ) * weights[i] >= held[i] * sums::sum(
                allocation::masked(weights, allocation::negated(capped)),
            ),
    ensures
        ({
            let end = allocation::settled(available, held, weights, capped);
            &&& end.len() == capped.len()
            &&& forall|i: int|
                0 <= i < held.len() && #[trigger] end[i] ==> allocation::pool_after(
                    available,
                    held,
                    end,
                ) * weights[i] >= held[i] * sums::sum(
                    allocation::masked(weights, allocation::negated(end)),
                )
        }),
    decreases allocation::running(capped),
{
    if exists|i: int|
        0 <= i < capped.len() && #[trigger] allocation::overruns(
            available,
            held,
            weights,
            capped,
            i,
        ) {
        let next = allocation::capped_next(available, held, weights, capped);
        let newly = allocation::newly_capped(available, held, weights, capped);
        allocation::lemma_running_drops(
            capped,
            next,
            choose|i: int|
                0 <= i < capped.len() && #[trigger] allocation::overruns(
                    available,
                    held,
                    weights,
                    capped,
                    i,
                ),
        );
        allocation::lemma_round(available, held, weights, capped, lot);
        allocation::lemma_round_weight(available, held, weights, capped, lot);
        allocation::lemma_round_weight(available, held, weights, next, lot);
        let pool = allocation::pool_after(available, held, capped);
        let later = allocation::pool_after(available, held, next);
        let w = allocation::masked(weights, allocation::negated(capped));
        let w_later = allocation::masked(weights, allocation::negated(next));
        let v = allocation::masked(weights, newly);
        let h = allocation::masked(held, newly);
        let whole = sums::sum(w);
        let whole_later = sums::sum(w_later);
        sums::lemma_sum_add(w_later, v, w);
        let scaled = Seq::new(held.len(), |i: int| whole * h[i]);
        let earned = Seq::new(held.len(), |i: int| pool * v[i]);
        assert forall|i: int| 0 <= i < held.len() implies scaled[i] <= earned[i] by {
            if newly[i] {
                let x = pool * weights[i] / whole;
                vstd::arithmetic::div_mod::lemma_fundamental_div_mod(pool * weights[i], whole);
                assert(whole * held[i] <= whole * x) by (nonlinear_arith)
                    requires
                        held[i] <= x,
                        whole > 0,
                ;
            } else {
                assert(whole * 0 == 0) by (nonlinear_arith);
                assert(pool * 0 == 0) by (nonlinear_arith);
            }
        }
        sums::lemma_sum_scale(h, whole, scaled);
        sums::lemma_sum_scale(v, pool, earned);
        sums::lemma_sum_le(scaled, earned);
        let taken = sums::sum(h);
        let gone = sums::sum(v);
        assert(later == pool - taken);
        assert(whole_later == whole - gone);
        assert(later * whole >= pool * whole_later) by (nonlinear_arith)
            requires
                later == pool - taken,
                whole_later == whole - gone,
                whole * taken <= pool * gone,
        ;
        assert forall|i: int| 0 <= i < held.len() && #[trigger] next[i] implies later * weights[i]
            >= held[i] * whole_later by {
            assert(weights[i] >= 1);
            assert(held[i] >= 0);
            assert(pool * weights[i] >= held[i] * whole) by {
                if !capped[i] {
                    assert(newly[i]);
                    assert(scaled[i] <= earned[i]);
                    assert(whole * held[i] == held[i] * whole) by (nonlinear_arith);
                }
            }
            let a = later * weights[i];
            let b = held[i] * whole_later;
            assert(a * whole >= b * whole) by (nonlinear_arith)
                requires
                    a == later * weights[i],
                    b == held[i] * whole_later,
                    later * whole >= pool * whole_later,
                    pool * weights[i] >= held[i] * whole,
                    weights[i] >= 1,
                    whole_later > 0,
            ;
            assert(a >= b) by (nonlinear_arith)
                requires
                    a * whole >= b * whole,
                    whole > 0,
            ;
        }
        lemma_capped_earn(available, held, weights, next, lot);
    }
}

/// Lots that rounding leaves over go to those in front first.
proof fn lemma_leftovers_in_front(
    pool: int,
    held: Seq<int>,
    weights: Seq<int>,
    active: Seq<bool>,
    lot: int,
)
    requires
        allocation::split_ok(pool, held, weights, active, lot),
    ensures
        ({
            let shares = allocation::apportioned(pool, held, weights, active, lot);
            let whole = sums::sum(allocation::masked(weights, active));
            &&& shares.len() == held.len()
            &&& forall|i: int|
                0 <= i < held.len() ==> {
                    let floor = (pool * weights[i] / whole / lot) * lot;
                    if active[i] {
                        #[trigger] shares[i] == floor || shares[i] == floor + lot
                    } else {
                        shares[i] == held[i]
                    }
                }
            &&& forall|i: int, j: int|
                #![trigger shares[i], shares[j]]
                0 <= i < j < held.len() && active[i] && active[j] && shares[j] == (pool
                    * weights[j] / whole / lot) * lot + lot ==> shares[i] == (pool * weights[i]
                    / whole / lot) * lot + lot
        }),
{
    let whole = sums::sum(allocation::masked(weights, active));
    let base = allocation::floors(pool, held, weights, active, lot);
    let left = pool - sums::sum(allocation::masked(base, active));
    let flags = allocation::room(base, held, lot);
    let shares = allocation::apportioned(pool, held, weights, active, lot);
    assert forall|i: int|
        #![trigger base[i]]
        0 <= i < held.len() && active[i] implies held[i] - base[i] >= lot by {
        assert(weights[i] >= 0);
        allocation::lemma_floored(pool, weights[i], whole, lot);
        assert(held[i] % lot == 0);
        sums::lemma_multiples_gap(base[i], held[i], lot);
    }
    assert forall|i: int, j: int|
        #![trigger shares[i], shares[j]]
        0 <= i < j < held.len() && active[i] && active[j] && shares[j] == (pool * weights[j]
            / whole / lot) * lot + lot implies shares[i] == (pool * weights[i] / whole / lot) * lot
        + lot by {
        assert(base[i] == (pool * weights[i] / whole / lot) * lot);
        assert(base[j] == (pool * weights[j] / whole / lot) * lot);
        let before_i = sums::sum(flags.take(i));
        let before_j = sums::sum(flags.take(j));
        sums::lemma_sum_prefix(flags.take(j), i);
        assert(flags.take(j).take(i) =~= flags.take(i));
        assert(lot * before_i <= lot * before_j) by (nonlinear_arith)
            requires
                before_i <= before_j,
                lot > 0,
        ;
        assert(held[i] - base[i] >= lot);
    }
    assert forall|i: int| 0 <= i < held.len() implies {
        let floor = (pool * weights[i] / whole / lot) * lot;
        if active[i] {
            #[trigger] shares[i] == floor || shares[i] == floor + lot
        } else {
            shares[i] == held[i]
        }
    } by {
        if active[i] {
            assert(base[i] == (pool * weights[i] / whole / lot) * lot);
        }
    }
}

proof fn lemma_sums_of(makers: Seq<Maker>, weights: Seq<int>, some: Seq<bool>)
    requires
        some.len() == makers.len() == weights.len(),
    ensures
        held_by(makers, some) == sums::sum(
            allocation::masked(allocation::holdings(makers), some),
        ),
        weight_without(weights, some) == sums::sum(
            allocation::masked(weights, allocation::negated(some)),
        ),
{
    assert(allocation::masked(allocation::holdings(makers), some) =~= Seq::new(
        makers.len(),
        |i: int|
            if some[i] {
                makers[i].remaining_quantity.base() as int
            } else {
                0
            },
    ));
    assert(allocation::masked(weights, allocation::negated(some)) =~= Seq::new(
        weights.len(),
        |i: int|
            if some[i] {
                0
            } else {
                weights[i]
            },
    ));
}

/// Time pro rata is a fair split by weight, where the taker does not take the whole
/// level.
pub proof fn time_pro_rata_splits_fairly(
    matcher: TimeProRataMatcher,
    available: Qty,
    makers: Seq<Maker>,
    now: u128,
) -> (full: Seq<bool>)
    requires
        matcher.wf(),
        makers.len() <= usize::MAX,
        allocation::on_grid(matcher.spec_lot_size(), available, makers),
        available.base() < allocation::level_total(makers),
    ensures
        is_fair_split(
            available.base() as int,
            makers,
            matcher.spec_weights(makers, now as int),
            matcher.lot() as int,
            given_to(matcher, available, makers, now),
            full,
        ),
{
    let lot = matcher.lot() as int;
    let a = available.base() as int;
    let held = allocation::holdings(makers);
    let weights = matcher.spec_weights(makers, now as int);
    let got = given_to(matcher, available, makers, now);
    weights_are_size_times_time(matcher, makers, now);
    assert forall|i: int|
        #![trigger held[i]]
        0 <= i < held.len() implies held[i] >= 0 && held[i] % lot == 0 by {
        assert(makers[i].remaining_quantity.base() as int % lot == 0);
    }
    assert forall|i: int| 0 <= i < held.len() implies #[trigger] weights[i] >= 1 by {}
    let start = allocation::empty_handed(held);
    allocation::lemma_first_round(a, held, weights, lot);
    allocation::lemma_settled(a, held, weights, start, lot);
    let end = allocation::settled(a, held, weights, start);
    assert forall|i: int| 0 <= i < held.len() && #[trigger] start[i] implies allocation::pool_after(
        a,
        held,
        start,
    ) * weights[i] >= held[i] * sums::sum(
        allocation::masked(weights, allocation::negated(start)),
    ) by {
        assert(held[i] == 0);
        assert(a * weights[i] >= 0) by (nonlinear_arith)
            requires
                a >= 0,
                weights[i] >= 1,
        ;
        assert(0 * sums::sum(allocation::masked(weights, allocation::negated(start))) == 0)
            by (nonlinear_arith);
    }
    lemma_capped_earn(a, held, weights, start, lot);
    allocation::lemma_settled_split(a, held, weights, end, lot);
    let pool = allocation::pool_after(a, held, end);
    let active = allocation::negated(end);
    lemma_leftovers_in_front(pool, held, weights, active, lot);
    allocation::lemma_apportioned(pool, held, weights, active, lot);
    lemma_sums_of(makers, weights, end);
    let shares = allocation::apportioned(pool, held, weights, active, lot);
    assert forall|i: int| 0 <= i < shares.len() implies 0 <= #[trigger] shares[i] <= u64::MAX by {
        assert(shares[i] <= held[i]);
    }
    assert forall|i: int| 0 <= i < makers.len() implies #[trigger] got[i] == shares[i] by {
        allocation::lemma_allotted(shares, i);
    }
    assert forall|i: int| 0 <= i < makers.len() implies {
        let mine = makers[i].remaining_quantity.base() as int;
        let part = pool * weights[i] / weight_without(weights, end);
        let floor = (part / lot) * lot;
        if #[trigger] end[i] {
            got[i] == mine && pool * weights[i] >= mine * weight_without(weights, end)
        } else {
            part < mine && (got[i] == floor || got[i] == floor + lot)
        }
    } by {
        assert(got[i] == shares[i]);
        assert(held[i] == makers[i].remaining_quantity.base());
        assert(active[i] == !end[i]);
    }
    assert forall|i: int, j: int|
        #![trigger end[i], end[j]]
        0 <= i < j < makers.len() && !end[i] && !end[j] && got[j] == (pool * weights[j]
            / weight_without(weights, end) / lot) * lot + lot implies got[i] == (pool * weights[i]
        / weight_without(weights, end) / lot) * lot + lot by {
        assert(got[i] == shares[i] && got[j] == shares[j]);
        assert(active[i] && active[j]);
    }
    end
}

/// Pro rata is a fair split by size, where the taker does not take the whole level:
/// nobody is full but those that hold nothing.
pub proof fn pro_rata_splits_fairly(
    matcher: ProRataMatcher,
    available: Qty,
    makers: Seq<Maker>,
    now: u128,
)
    requires
        matcher.wf(),
        makers.len() <= usize::MAX,
        allocation::on_grid(matcher.spec_lot_size(), available, makers),
        available.base() < allocation::level_total(makers),
    ensures
        is_fair_split(
            available.base() as int,
            makers,
            Seq::new(makers.len(), |i: int| makers[i].remaining_quantity.base() as int),
            matcher.lot() as int,
            given_to(matcher, available, makers, now),
            Seq::new(makers.len(), |i: int| makers[i].remaining_quantity.base() == 0),
        ),
{
    let lot = matcher.lot() as int;
    let a = available.base() as int;
    let held = allocation::holdings(makers);
    let sizes = Seq::new(makers.len(), |i: int| makers[i].remaining_quantity.base() as int);
    let full = Seq::new(makers.len(), |i: int| makers[i].remaining_quantity.base() == 0);
    let got = given_to(matcher, available, makers, now);
    let active = allocation::nonzero(held);
    assert(sizes =~= held);
    assert forall|i: int|
        #![trigger held[i]]
        0 <= i < held.len() implies held[i] >= 0 && held[i] % lot == 0 by {
        assert(makers[i].remaining_quantity.base() as int % lot == 0);
    }
    allocation::lemma_pro_rata_split(a, held, lot);
    allocation::lemma_apportioned(a, held, held, active, lot);
    lemma_leftovers_in_front(a, held, held, active, lot);
    lemma_sums_of(makers, sizes, full);
    assert(allocation::negated(full) =~= active);
    sums::lemma_sum_zero(allocation::masked(held, full));
    let whole = weight_without(sizes, full);
    let shares = allocation::apportioned(a, held, held, active, lot);
    assert forall|i: int| 0 <= i < shares.len() implies 0 <= #[trigger] shares[i] <= u64::MAX by {
        assert(shares[i] <= held[i]);
    }
    assert forall|i: int| 0 <= i < makers.len() implies #[trigger] got[i] == shares[i] by {
        allocation::lemma_allotted(shares, i);
    }
    assert forall|i: int| 0 <= i < makers.len() implies {
        let mine = makers[i].remaining_quantity.base() as int;
        let part = a * sizes[i] / whole;
        let floor = (part / lot) * lot;
        if #[trigger] full[i] {
            got[i] == mine && a * sizes[i] >= mine * whole
        } else {
            part < mine && (got[i] == floor || got[i] == floor + lot)
        }
    } by {
        assert(got[i] == shares[i]);
        assert(held[i] == makers[i].remaining_quantity.base());
        assert(active[i] == !full[i]);
        assert(a * 0 >= 0 * whole) by (nonlinear_arith);
    }
    assert forall|i: int, j: int|
        #![trigger full[i], full[j]]
        0 <= i < j < makers.len() && !full[i] && !full[j] && got[j] == (a * sizes[j] / whole
            / lot) * lot + lot implies got[i] == (a * sizes[i] / whole / lot) * lot + lot by {
        assert(got[i] == shares[i] && got[j] == shares[j]);
        assert(active[i] && active[j]);
    }
}

/// Where no weight needs scaling and nobody's part is as much as it holds, each maker
/// gets what there is times its size times its time, over the sum of these for all,
/// rounded down to whole lots, or one lot more.
pub proof fn time_pro_rata_is_proportional(
    matcher: TimeProRataMatcher,
    available: Qty,
    makers: Seq<Maker>,
    now: u128,
    i: int,
)
    requires
        matcher.wf(),
        makers.len() <= usize::MAX,
        allocation::on_grid(matcher.spec_lot_size(), available, makers),
        available.base() < allocation::level_total(makers),
        0 <= i < makers.len(),
        forall|m: int|
            0 <= m < makers.len() ==> {
                let rested = (now - (#[trigger] makers[m]).arrival) / (matcher.spec_tick() as int);
                let size = makers[m].remaining_quantity.base();
                &&& now > makers[m].arrival
                &&& 1 <= rested <= matcher.spec_max_age()
                &&& size * rested <= u64::MAX
                &&& size > 0
                &&& available.base() * (size * rested) / sums::sum(
                    Seq::new(
                        makers.len(),
                        |n: int|
                            makers[n].remaining_quantity.base() * ((now - makers[n].arrival) / (
                            matcher.spec_tick() as int)),
                    ),
                ) < size
            },
    ensures
        ({
            let lot = matcher.lot() as int;
            let tick = matcher.spec_tick() as int;
            let whole = sums::sum(
                Seq::new(
                    makers.len(),
                    |n: int|
                        makers[n].remaining_quantity.base() * ((now - makers[n].arrival) / (
                        matcher.spec_tick() as int)),
                ),
            );
            let part = available.base() * (makers[i].remaining_quantity.base() * ((now
                - makers[i].arrival) / tick)) / whole;
            let got = allocation::allotted(matcher.allocation(available, makers, now), i);
            got == (part / lot) * lot || got == (part / lot) * lot + lot
        }),
{
    let lot = matcher.lot() as int;
    let a = available.base() as int;
    let tick = matcher.spec_tick() as int;
    let held = allocation::holdings(makers);
    let weights = matcher.spec_weights(makers, now as int);
    let sizes = Seq::new(
        makers.len(),
        |n: int|
            makers[n].remaining_quantity.base() * ((now - makers[n].arrival) / (
            matcher.spec_tick() as int)),
    );
    let whole = sums::sum(sizes);
    assert forall|m: int| 0 <= m < makers.len() implies dwell(matcher, #[trigger] makers[m], now)
        == sizes[m] && sizes[m] <= u64::MAX by {}
    let k = weights_are_size_times_time(matcher, makers, now);
    vstd::arithmetic::power2::lemma2_to64();
    assert forall|m: int| 0 <= m < makers.len() implies #[trigger] weights[m] == sizes[m] && held[m]
        > 0 by {
        assert(dwell(matcher, makers[m], now) == sizes[m]);
        let rested = (now - makers[m].arrival) / tick;
        assert(sizes[m] >= 1) by (nonlinear_arith)
            requires
                sizes[m] == makers[m].remaining_quantity.base() * rested,
                makers[m].remaining_quantity.base() >= 1,
                rested >= 1,
        ;
        assert(sizes[m] / 1 == sizes[m]);
    }
    assert(weights =~= sizes);
    assert forall|m: int|
        #![trigger held[m]]
        0 <= m < held.len() implies held[m] >= 0 && held[m] % lot == 0 by {
        assert(makers[m].remaining_quantity.base() as int % lot == 0);
    }
    let start = allocation::empty_handed(held);
    allocation::lemma_first_round(a, held, weights, lot);
    let active = allocation::negated(start);
    assert forall|m: int| 0 <= m < held.len() implies !#[trigger] start[m] && active[m] by {
        assert(weights[m] == sizes[m]);
    }
    assert(allocation::masked(weights, active) =~= sizes);
    assert forall|m: int| 0 <= m < start.len() implies !#[trigger] allocation::overruns(
        a,
        held,
        weights,
        start,
        m,
    ) by {
        let rested = (now - makers[m].arrival) / tick;
        assert(weights[m] == makers[m].remaining_quantity.base() * rested);
        assert(a * (makers[m].remaining_quantity.base() * rested) / whole < held[m]);
    }
    assert(allocation::settled(a, held, weights, start) == start);
    allocation::lemma_settled_split(a, held, weights, start, lot);
    lemma_leftovers_in_front(a, held, weights, active, lot);
    allocation::lemma_apportioned(a, held, weights, active, lot);
    let shares = allocation::apportioned(a, held, weights, active, lot);
    assert forall|m: int| 0 <= m < shares.len() implies 0 <= #[trigger] shares[m] <= u64::MAX by {
        assert(shares[m] <= held[m]);
    }
    allocation::lemma_allotted(shares, i);
    assert(active[i]);
    assert(shares[i] == (a * weights[i] / whole / lot) * lot || shares[i] == (a * weights[i]
        / whole / lot) * lot + lot);
}

// ---------------------------------------------------------------- any policy

/// Whatever the policy, an allocation takes as much as there is to take: all that the
/// level holds, or all that the taker wants, whichever is less. It goes through the
/// queue from front to back, takes something of each maker that it names, and no
/// more than that maker holds.
pub proof fn allocations_take_what_there_is<M: MatchingAlgorithm>(
    matcher: M,
    available: Qty,
    makers: Seq<Maker>,
    now: u128,
)
    requires
        matcher.wf(),
        makers.len() <= usize::MAX,
        allocation::on_grid(matcher.spec_lot_size(), available, makers),
    ensures
        ({
            let fills = matcher.allocation(available, makers, now);
            let total = sums::sum(
                Seq::new(makers.len(), |i: int| makers[i].remaining_quantity.base() as int),
            );
            let taken = sums::sum(
                Seq::new(fills.len(), |i: int| fills[i].quantity.base() as int),
            );
            &&& available.base() <= total ==> taken == available.base()
            &&& available.base() >= total ==> taken == total
            &&& forall|i: int, j: int|
                0 <= i < j < fills.len() ==> (#[trigger] fills[i]).order_index < (
                #[trigger] fills[j]).order_index
            &&& forall|i: int|
                0 <= i < fills.len() ==> {
                    let maker = makers[(#[trigger] fills[i]).order_index as int];
                    &&& fills[i].order_index < makers.len()
                    &&& 0 < fills[i].quantity.base() <= maker.remaining_quantity.base()
                }
        }),
{
    let fills = matcher.allocation(available, makers, now);
    matcher.allocation_conforms(available, makers, now);
    assert(allocation::holdings(makers) =~= Seq::new(
        makers.len(),
        |i: int| makers[i].remaining_quantity.base() as int,
    ));
    assert(allocation::taken(fills) =~= Seq::new(
        fills.len(),
        |i: int| fills[i].quantity.base() as int,
    ));
}

/// What a maker gets is what the fill that names it says, and nothing where none does.
pub proof fn makers_get_what_fills_say(fills: Seq<Fill>, k: int)
    requires
        forall|i: int, j: int|
            0 <= i < j < fills.len() ==> (#[trigger] fills[i]).order_index < (
            #[trigger] fills[j]).order_index,
    ensures
        forall|i: int|
            0 <= i < fills.len() && (#[trigger] fills[i]).order_index == k ==> allocation::allotted(
                fills,
                k,
            ) == fills[i].quantity.base(),
        (forall|i: int| 0 <= i < fills.len() ==> (#[trigger] fills[i]).order_index != k)
            ==> allocation::allotted(fills, k) == 0,
    decreases fills.len(),
{
    if fills.len() > 0 {
        let rest = fills.drop_last();
        assert forall|i: int, j: int| 0 <= i < j < rest.len() implies (
        #[trigger] rest[i]).order_index < (#[trigger] rest[j]).order_index by {
            assert(rest[i] == fills[i] && rest[j] == fills[j]);
        }
        makers_get_what_fills_say(rest, k);
        assert forall|i: int| 0 <= i < fills.len() && (#[trigger] fills[i]).order_index == k implies
            allocation::allotted(fills, k) == fills[i].quantity.base() by {
            if i < rest.len() {
                assert(rest[i] == fills[i]);
                assert(fills[i].order_index < fills[fills.len() - 1].order_index);
            }
        }
        if forall|i: int| 0 <= i < fills.len() ==> (#[trigger] fills[i]).order_index != k {
            assert(fills[fills.len() - 1].order_index != k);
            assert forall|i: int| 0 <= i < rest.len() implies (#[trigger] rest[i]).order_index
                != k by {
                assert(rest[i] == fills[i]);
            }
        }
    }
}

// ---------------------------------------------------------------- over orders

/// A policy that is handed orders shares out what they have on offer, whatever the
/// time.
pub proof fn orders_are_shared_out_as_they_are_on_offer(
    matcher: ProRataMatcher,
    available: Qty,
    orders: Seq<Order>,
    now: u128,
)
    ensures
        algorithms::MatchingAlgorithm::fills(&FifoMatcher, available, orders)
            == FifoMatcher.allocation(available, conduct::on_offer(orders), now),
        algorithms::MatchingAlgorithm::fills(&matcher, available, orders) == matcher.allocation(
            available,
            conduct::on_offer(orders),
            now,
        ),
{
    assert(crate::types::as_makers(orders) =~= conduct::on_offer(orders));
}

} // verus!
