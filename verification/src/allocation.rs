//! Who at a price level gets filled, and by how much.
//!
//! A policy sees one level as a queue of [`Maker`]s, oldest first, and answers
//! with [`Fill`]s. What every policy owes is [`conforms`]: fills name makers in
//! queue order, none is empty, none takes more than the maker holds, together
//! they take all that can be taken, and they stay on the lot grid.

use crate::instrument;
use crate::instrument::Qty;
use crate::sums;
use vstd::prelude::*;

verus! {

/// One resting order's share of an incoming order, by its place in the queue.
#[derive(Debug, Clone, Copy, PartialEq, Eq, Structural)]
pub struct Fill {
    pub order_index: usize,
    pub quantity: Qty,
}

/// One resting order as a policy sees it: what is left of it, and when it joined
/// the queue.
#[derive(Debug, Clone, Copy, PartialEq, Eq, Structural)]
pub struct Maker {
    pub remaining_quantity: Qty,
    pub arrival: u128,
}

/// What each maker holds.
pub open spec fn holdings(makers: Seq<Maker>) -> Seq<int> {
    makers.map_values(|m: Maker| m.remaining_quantity.base() as int)
}

/// What the whole level holds.
pub open spec fn level_total(makers: Seq<Maker>) -> int {
    sums::sum(holdings(makers))
}

/// What each fill takes.
pub open spec fn taken(fills: Seq<Fill>) -> Seq<int> {
    fills.map_values(|f: Fill| f.quantity.base() as int)
}

/// The fills that hand maker `i` the quantity `shares[i]`: a maker with nothing
/// is absent.
pub open spec fn fills_of(shares: Seq<int>) -> Seq<Fill>
    decreases shares.len(),
{
    if shares.len() == 0 {
        Seq::empty()
    } else {
        let before = fills_of(shares.drop_last());
        if shares.last() > 0 {
            before.push(
                Fill {
                    order_index: (shares.len() - 1) as usize,
                    quantity: qty_of(shares.last()),
                },
            )
        } else {
            before
        }
    }
}

/// The quantity of so many base units.
pub open(crate) spec fn qty_of(base: int) -> Qty {
    Qty(base as u64)
}

/// Whether the taker and every maker hold whole lots.
pub open spec fn whole_lots(lot: int, available: Qty, makers: Seq<Maker>) -> bool {
    &&& available.base() as int % lot == 0
    &&& forall|i: int|
        0 <= i < makers.len() ==> (#[trigger] makers[i]).remaining_quantity.base() as int % lot == 0
}

/// What a policy that floors to a lot may be handed: whole lots only.
pub open spec fn on_grid(lot: Option<u64>, available: Qty, makers: Seq<Maker>) -> bool {
    lot matches Some(lot) ==> lot > 0 && whole_lots(lot as int, available, makers)
}

/// Whether the fills are whole lots: of the policy's own lot, or, where it
/// declares none, of every lot that the taker and the makers are whole lots of.
pub open spec fn fills_on_grid(
    lot: Option<u64>,
    available: Qty,
    makers: Seq<Maker>,
    fills: Seq<Fill>,
) -> bool {
    forall|l: int, i: int|
        l > 0 && (lot matches Some(own) ==> l == own) && #[trigger] whole_lots(l, available, makers)
            && 0 <= i < fills.len() ==> (#[trigger] fills[i]).quantity.base() as int % l == 0
}

/// The allocation contract.
pub open spec fn conforms(
    lot: Option<u64>,
    available: Qty,
    makers: Seq<Maker>,
    fills: Seq<Fill>,
) -> bool {
    // queue order
    &&& forall|i: int, j: int|
        0 <= i < j < fills.len() ==> (#[trigger] fills[i]).order_index < (
        #[trigger] fills[j]).order_index
    // each names a maker, takes something, and no more than the maker holds
    &&& forall|i: int|
        0 <= i < fills.len() ==> {
            &&& (#[trigger] fills[i]).order_index < makers.len()
            &&& 0 < fills[i].quantity.base()
            &&& fills[i].quantity.base()
                <= makers[fills[i].order_index as int].remaining_quantity.base()
        }
    // all that can be taken
    &&& sums::sum(taken(fills)) == min(available.base() as int, level_total(makers))
    &&& fills_on_grid(lot, available, makers, fills)
}

pub open spec fn min(a: int, b: int) -> int {
    if a <= b {
        a
    } else {
        b
    }
}

pub open spec fn max(a: int, b: int) -> int {
    if a >= b {
        a
    } else {
        b
    }
}

/// Whether shares can be handed out: none negative, none over what the maker
/// holds, and together all that can be taken.
pub open spec fn valid_shares(shares: Seq<int>, available: Qty, makers: Seq<Maker>) -> bool {
    &&& shares.len() == makers.len()
    &&& forall|i: int|
        0 <= i < shares.len() ==> 0 <= #[trigger] shares[i]
            <= makers[i].remaining_quantity.base()
    &&& sums::sum(shares) == min(available.base() as int, level_total(makers))
}

proof fn lemma_fills_of_shares(shares: Seq<int>)
    requires
        shares.len() <= usize::MAX,
        forall|i: int| 0 <= i < shares.len() ==> 0 <= #[trigger] shares[i] <= u64::MAX,
    ensures
        forall|i: int, j: int|
            0 <= i < j < fills_of(shares).len() ==> (#[trigger] fills_of(shares)[i]).order_index < (
            #[trigger] fills_of(shares)[j]).order_index,
        forall|i: int|
            0 <= i < fills_of(shares).len() ==> {
                let f = #[trigger] fills_of(shares)[i];
                &&& f.order_index < shares.len()
                &&& f.quantity.base() == shares[f.order_index as int]
                &&& f.quantity.base() > 0
            },
        forall|k: int|
            0 <= k < shares.len() && #[trigger] shares[k] > 0 ==> exists|i: int|
                0 <= i < fills_of(shares).len() && (#[trigger] fills_of(shares)[i]).order_index
                    == k,
        sums::sum(taken(fills_of(shares))) == sums::sum(shares),
    decreases shares.len(),
{
    if shares.len() > 0 {
        let rest = shares.drop_last();
        assert forall|i: int| 0 <= i < rest.len() implies 0 <= #[trigger] rest[i] <= u64::MAX by {
            assert(rest[i] == shares[i]);
        }
        lemma_fills_of_shares(rest);
        let before = fills_of(rest);
        let all = fills_of(shares);
        assert forall|k: int| 0 <= k < shares.len() && #[trigger] shares[k] > 0 implies exists|i: int|
            0 <= i < all.len() && (#[trigger] all[i]).order_index == k by {
            if k < rest.len() {
                assert(rest[k] == shares[k]);
                let i = choose|i: int|
                    0 <= i < before.len() && (#[trigger] before[i]).order_index == k;
                assert(all[i] == before[i]);
            } else {
                assert(all[all.len() - 1].order_index == k);
            }
        }
        if shares.last() > 0 {
            let fill = Fill {
                order_index: (shares.len() - 1) as usize,
                quantity: qty_of(shares.last()),
            };
            assert(taken(all) =~= taken(before).push(fill.quantity.base() as int));
            sums::lemma_sum_push(taken(before), fill.quantity.base() as int);
        }
    } else {
        assert(taken(fills_of(shares)) =~= Seq::<int>::empty());
    }
}

proof fn lemma_shares_conform(
    lot: Option<u64>,
    shares: Seq<int>,
    available: Qty,
    makers: Seq<Maker>,
)
    requires
        makers.len() <= usize::MAX,
        valid_shares(shares, available, makers),
        forall|l: int, i: int|
            l > 0 && (lot matches Some(own) ==> l == own) && #[trigger] whole_lots(
                l,
                available,
                makers,
            ) && 0 <= i < shares.len() ==> #[trigger] shares[i] % l == 0,
    ensures
        conforms(lot, available, makers, fills_of(shares)),
{
    lemma_fills_of_shares(shares);
    let fills = fills_of(shares);
    assert forall|l: int, i: int|
        l > 0 && (lot matches Some(own) ==> l == own) && #[trigger] whole_lots(l, available, makers)
            && 0 <= i < fills.len() implies (#[trigger] fills[i]).quantity.base() as int % l
        == 0 by {
        assert(shares[fills[i].order_index as int] % l == 0);
    }
}

/// Fills of shares that are zero from some place on.
proof fn lemma_fills_zero_tail(shares: Seq<int>, i: int)
    requires
        0 <= i <= shares.len(),
        forall|j: int| i <= j < shares.len() ==> #[trigger] shares[j] <= 0,
    ensures
        fills_of(shares) == fills_of(shares.take(i)),
    decreases shares.len(),
{
    if i < shares.len() {
        let rest = shares.drop_last();
        assert(rest.take(i) =~= shares.take(i));
        assert forall|j: int| i <= j < rest.len() implies #[trigger] rest[j] <= 0 by {
            assert(rest[j] == shares[j]);
        }
        lemma_fills_zero_tail(rest, i);
    } else {
        assert(shares.take(i) =~= shares);
    }
}

proof fn lemma_fills_step(shares: Seq<int>, i: int)
    requires
        0 <= i < shares.len(),
    ensures
        fills_of(shares.take(i + 1)) == (if shares[i] > 0 {
            fills_of(shares.take(i)).push(
                Fill { order_index: i as usize, quantity: qty_of(shares[i]) },
            )
        } else {
            fills_of(shares.take(i))
        }),
{
    assert(shares.take(i + 1).drop_last() =~= shares.take(i));
}

/// How one level's worth of resting quantity is shared out. An allocation
/// depends on its arguments alone: no clock is read.
pub trait MatchingAlgorithm {
    /// Whether the policy's own parameters are sound.
    spec fn wf(&self) -> bool;

    /// The lot that the policy floors to, where it needs to know one.
    spec fn spec_lot_size(&self) -> Option<u64>;

    /// The fills that the policy hands out.
    spec fn allocation(&self, available: Qty, makers: Seq<Maker>, now: u128) -> Seq<Fill>;

    /// Every allocation meets the allocation contract.
    proof fn allocation_conforms(&self, available: Qty, makers: Seq<Maker>, now: u128)
        requires
            self.wf(),
            makers.len() <= usize::MAX,
            on_grid(self.spec_lot_size(), available, makers),
        ensures
            conforms(
                self.spec_lot_size(),
                available,
                makers,
                self.allocation(available, makers, now),
            ),
    ;

    /// Shares `available` out over one price level. `makers` is the queue,
    /// oldest first; `now` is what ages are measured against.
    fn allocate(&self, available: Qty, makers: &[Maker], now: u128) -> (r: Vec<Fill>)
        requires
            self.wf(),
            on_grid(self.spec_lot_size(), available, makers@),
        ensures
            r@ == self.allocation(available, makers@, now),
            conforms(self.spec_lot_size(), available, makers@, r@),
    ;

    /// The lot that the policy floors its shares to, or `None` where it keeps to
    /// every grid without knowing it.
    fn lot_size(&self) -> (r: Option<u64>)
        ensures
            r == self.spec_lot_size(),
    ;
}

// ---------------------------------------------------------------- first in, first out

/// Price-time priority: the oldest maker is filled first.
#[derive(Debug, Clone, Copy, Default)]
pub struct FifoMatcher;

/// What first-in-first-out gives the maker at `i`: what the makers before it
/// leave, up to what it holds.
pub open spec fn fifo_share(available: int, held: Seq<int>, i: int) -> int {
    min(held[i], max(0, available - sums::sum(held.take(i))))
}

pub open spec fn fifo_shares(available: int, held: Seq<int>) -> Seq<int> {
    Seq::new(held.len(), |i: int| fifo_share(available, held, i))
}

proof fn lemma_fifo_prefix(available: int, held: Seq<int>, i: int)
    requires
        0 <= i <= held.len(),
        available >= 0,
        forall|j: int| 0 <= j < held.len() ==> held[j] >= 0,
    ensures
        sums::sum(fifo_shares(available, held).take(i)) == min(available, sums::sum(held.take(i))),
    decreases i,
{
    let shares = fifo_shares(available, held);
    if i > 0 {
        lemma_fifo_prefix(available, held, i - 1);
        sums::lemma_sum_step(shares, i - 1);
        sums::lemma_sum_step(held, i - 1);
        sums::lemma_sum_prefix(held, i - 1);
    } else {
        assert(shares.take(0) =~= Seq::<int>::empty());
        assert(held.take(0) =~= Seq::<int>::empty());
    }
}

proof fn lemma_fifo_on_grid(available: int, held: Seq<int>, l: int, i: int)
    requires
        l > 0,
        available >= 0,
        available % l == 0,
        0 <= i < held.len(),
        forall|j: int| 0 <= j < held.len() ==> held[j] >= 0 && #[trigger] held[j] % l == 0,
    ensures
        fifo_share(available, held, i) % l == 0,
{
    let before = held.take(i);
    assert forall|j: int| 0 <= j < before.len() implies before[j] % l == 0 by {
        assert(before[j] == held[j]);
    }
    sums::lemma_sum_multiple(before, l);
    sums::lemma_multiples_add(available, sums::sum(before), l);
    vstd::arithmetic::div_mod::lemma_small_mod(0, l as nat);
}

proof fn lemma_fifo_conforms(available: Qty, makers: Seq<Maker>)
    requires
        makers.len() <= usize::MAX,
    ensures
        conforms(
            None,
            available,
            makers,
            fills_of(fifo_shares(available.base() as int, holdings(makers))),
        ),
{
    let held = holdings(makers);
    let shares = fifo_shares(available.base() as int, held);
    lemma_fifo_prefix(available.base() as int, held, held.len() as int);
    assert(shares.take(held.len() as int) =~= shares);
    assert(held.take(held.len() as int) =~= held);
    assert(valid_shares(shares, available, makers));
    assert forall|l: int, i: int|
        l > 0 && #[trigger] whole_lots(l, available, makers) && 0 <= i
            < shares.len() implies #[trigger] shares[i] % l == 0 by {
        assert forall|j: int| 0 <= j < held.len() implies held[j] >= 0 && #[trigger] held[j] % l
            == 0 by {
            assert(makers[j].remaining_quantity.base() as int % l == 0);
        }
        lemma_fifo_on_grid(available.base() as int, held, l, i);
    }
    lemma_shares_conform(None, shares, available, makers);
}

impl MatchingAlgorithm for FifoMatcher {
    open spec fn wf(&self) -> bool {
        true
    }

    open spec fn spec_lot_size(&self) -> Option<u64> {
        None
    }

    open spec fn allocation(&self, available: Qty, makers: Seq<Maker>, now: u128) -> Seq<Fill> {
        fills_of(fifo_shares(available.base() as int, holdings(makers)))
    }

    proof fn allocation_conforms(&self, available: Qty, makers: Seq<Maker>, now: u128) {
        lemma_fifo_conforms(available, makers);
    }

    fn allocate(&self, available: Qty, makers: &[Maker], now: u128) -> (r: Vec<Fill>) {
        let mut fills: Vec<Fill> = Vec::new();
        let mut left: u64 = available.base();
        let mut i: usize = 0;
        let ghost held = holdings(makers@);
        let ghost shares = fifo_shares(available.base() as int, held);
        proof {
            assert(shares.take(0) =~= Seq::<int>::empty());
            assert(held.take(0) =~= Seq::<int>::empty());
        }
        while i < makers.len() && left > 0
            invariant
                i <= makers@.len(),
                held == holdings(makers@),
                shares == fifo_shares(available.base() as int, held),
                left == max(0, available.base() - sums::sum(held.take(i as int))),
                fills@ == fills_of(shares.take(i as int)),
            decreases makers@.len() - i,
        {
            let remaining: u64 = makers[i].remaining_quantity.base();
            proof {
                sums::lemma_sum_step(held, i as int);
                lemma_fills_step(shares, i as int);
                sums::lemma_sum_prefix(held, i as int);
                sums::lemma_sum_prefix(held, i + 1);
            }
            if remaining > 0 {
                let quantity: u64 = if left <= remaining {
                    left
                } else {
                    remaining
                };
                fills.push(
                    Fill { order_index: i, quantity: Qty::from_base_unchecked(quantity) },
                );
                left = left - quantity;
            }
            i = i + 1;
        }
        proof {
            assert forall|j: int| i <= j < shares.len() implies #[trigger] shares[j] <= 0 by {
                sums::lemma_sum_prefix(held.take(j), i as int);
                assert(held.take(j).take(i as int) =~= held.take(i as int));
            }
            lemma_fills_zero_tail(shares, i as int);
            lemma_fifo_conforms(available, makers@);
        }
        fills
    }

    fn lot_size(&self) -> (r: Option<u64>) {
        None
    }
}

// ---------------------------------------------------------------- proportional shares

/// The elements of `s` where `active` holds, and zero elsewhere.
pub open spec fn masked(s: Seq<int>, active: Seq<bool>) -> Seq<int> {
    Seq::new(s.len(), |i: int| if active[i] { s[i] } else { 0 })
}

pub open spec fn negated(active: Seq<bool>) -> Seq<bool> {
    Seq::new(active.len(), |i: int| !active[i])
}

/// The part of `pool` that a weight earns, rounded down to whole lots.
pub open spec fn floored(pool: int, weight: int, weight_total: int, lot: int) -> int {
    (pool * weight / weight_total / lot) * lot
}

/// What everyone has before the leftover lots are handed out: an active maker
/// its floored share of the pool, any other all that it holds.
pub open spec fn floors(
    pool: int,
    held: Seq<int>,
    weights: Seq<int>,
    active: Seq<bool>,
    lot: int,
) -> Seq<int> {
    Seq::new(
        held.len(),
        |i: int|
            if active[i] {
                floored(pool, weights[i], sums::sum(masked(weights, active)), lot)
            } else {
                held[i]
            },
    )
}

/// One for each maker that can take another lot on top of its share.
pub open spec fn room(shares: Seq<int>, held: Seq<int>, lot: int) -> Seq<int> {
    Seq::new(held.len(), |i: int| if held[i] - shares[i] >= lot { 1 } else { 0 })
}

/// Hands `left` out one lot at a time, front of the queue first, to those that
/// have room: whoever has fewer than `left / lot` makers with room before it
/// gets one.
pub open spec fn swept(shares: Seq<int>, held: Seq<int>, lot: int, left: int) -> Seq<int> {
    Seq::new(
        held.len(),
        |i: int|
            if held[i] - shares[i] >= lot && lot * sums::sum(room(shares, held, lot).take(i))
                < left {
                shares[i] + lot
            } else {
                shares[i]
            },
    )
}

/// Shares of `pool` in proportion to the weights of the active makers, in whole
/// lots; the lots that flooring leaves over go by queue position.
pub open spec fn apportioned(
    pool: int,
    held: Seq<int>,
    weights: Seq<int>,
    active: Seq<bool>,
    lot: int,
) -> Seq<int> {
    let shares = floors(pool, held, weights, active, lot);
    swept(shares, held, lot, pool - sums::sum(masked(shares, active)))
}

proof fn lemma_sweep_prefix(shares: Seq<int>, held: Seq<int>, lot: int, left: int, i: int)
    requires
        shares.len() == held.len(),
        0 <= i <= held.len(),
        lot > 0,
        left >= 0,
        left % lot == 0,
    ensures
        sums::sum(swept(shares, held, lot, left).take(i)) == sums::sum(shares.take(i)) + min(
            left,
            lot * sums::sum(room(shares, held, lot).take(i)),
        ),
        sums::sum(room(shares, held, lot).take(i)) >= 0,
    decreases i,
{
    let after = swept(shares, held, lot, left);
    let flags = room(shares, held, lot);
    sums::lemma_sum_nonneg(flags.take(i));
    if i > 0 {
        lemma_sweep_prefix(shares, held, lot, left, i - 1);
        sums::lemma_sum_step(after, i - 1);
        sums::lemma_sum_step(shares, i - 1);
        sums::lemma_sum_step(flags, i - 1);
        let before = sums::sum(flags.take(i - 1));
        assert(lot * (before + 1) == lot * before + lot) by (nonlinear_arith);
        assert(lot * (before + 0) == lot * before);
        if lot * before < left {
            vstd::arithmetic::div_mod::lemma_mod_multiples_basic(before, lot);
            vstd::arithmetic::mul::lemma_mul_is_commutative(before, lot);
            sums::lemma_multiples_gap(lot * before, left, lot);
        }
    } else {
        assert(after.take(0) =~= Seq::<int>::empty());
        assert(shares.take(0) =~= Seq::<int>::empty());
        assert(flags.take(0) =~= Seq::<int>::empty());
        assert(lot * 0 == 0) by (nonlinear_arith);
    }
}

/// What flooring to a lot loses: less than one lot.
pub(crate) proof fn lemma_floored(pool: int, weight: int, weight_total: int, lot: int)
    requires
        pool >= 0,
        weight >= 0,
        weight_total > 0,
        lot > 0,
    ensures
        ({
            let f = floored(pool, weight, weight_total, lot);
            &&& 0 <= f <= pool * weight / weight_total
            &&& f % lot == 0
            &&& f * weight_total <= pool * weight
            &&& pool * weight < (f + lot) * weight_total
        }),
{
    let n = pool * weight;
    let x = n / weight_total;
    let f = floored(pool, weight, weight_total, lot);
    vstd::arithmetic::mul::lemma_mul_nonnegative(pool, weight);
    vstd::arithmetic::div_mod::lemma_div_pos_is_pos(n, weight_total);
    vstd::arithmetic::div_mod::lemma_div_pos_is_pos(x, lot);
    vstd::arithmetic::div_mod::lemma_fundamental_div_mod(n, weight_total);
    vstd::arithmetic::div_mod::lemma_fundamental_div_mod(x, lot);
    vstd::arithmetic::div_mod::lemma_mod_multiples_basic(x / lot, lot);
    vstd::arithmetic::mul::lemma_mul_is_commutative(lot, x / lot);
    vstd::arithmetic::mul::lemma_mul_nonnegative(x / lot, lot);
    assert(f <= x < f + lot);
    assert(n == weight_total * x + n % weight_total);
    assert(f * weight_total <= weight_total * x) by (nonlinear_arith)
        requires
            f <= x,
            weight_total > 0,
    ;
    assert(weight_total * x + weight_total <= (f + lot) * weight_total) by (nonlinear_arith)
        requires
            x + 1 <= f + lot,
            weight_total > 0,
    ;
}

pub open spec fn ones(n: nat) -> Seq<int> {
    Seq::new(n, |i: int| 1int)
}

/// Whether the shares of a proportional split come out valid: each active maker
/// earns strictly less than it holds, and everything is in whole lots.
pub open spec fn split_ok(
    pool: int,
    held: Seq<int>,
    weights: Seq<int>,
    active: Seq<bool>,
    lot: int,
) -> bool {
    &&& held.len() == weights.len() == active.len()
    &&& lot > 0
    &&& pool >= 0
    &&& pool % lot == 0
    &&& sums::sum(masked(weights, active)) > 0
    &&& forall|i: int|
        #![trigger held[i]]
        0 <= i < held.len() ==> held[i] >= 0 && held[i] % lot == 0
    &&& forall|i: int|
        #![trigger weights[i]]
        #![trigger active[i]]
        0 <= i < held.len() && active[i] ==> weights[i] >= 0 && pool * weights[i] / sums::sum(
            masked(weights, active),
        ) < held[i]
}

pub(crate) proof fn lemma_floors_sum(
    pool: int,
    held: Seq<int>,
    weights: Seq<int>,
    active: Seq<bool>,
    lot: int,
)
    requires
        split_ok(pool, held, weights, active, lot),
    ensures
        ({
            let shares = floors(pool, held, weights, active, lot);
            let left = pool - sums::sum(masked(shares, active));
            &&& 0 <= left
            &&& left % lot == 0
            &&& left < lot * sums::sum(masked(ones(held.len()), active))
        }),
{
    let shares = floors(pool, held, weights, active, lot);
    let total = sums::sum(masked(weights, active));
    let f = masked(shares, active);
    let w = masked(weights, active);
    let one = masked(ones(held.len()), active);
    let earned = Seq::new(held.len(), |i: int| pool * w[i]);
    let low = Seq::new(held.len(), |i: int| total * f[i]);
    let lots = Seq::new(held.len(), |i: int| lot * one[i]);
    let upper = Seq::new(held.len(), |i: int| f[i] + lots[i]);
    let high = Seq::new(held.len(), |i: int| total * upper[i]);
    let short = Seq::new(held.len(), |i: int| earned[i] + one[i]);
    assert forall|i: int| 0 <= i < held.len() implies low[i] <= earned[i] && short[i] <= high[i]
        && f[i] % lot == 0 by {
        if active[i] {
            let weight = weights[i];
            lemma_floored(pool, weight, total, lot);
            let fl = floored(pool, weight, total, lot);
            assert(total * fl == fl * total) by (nonlinear_arith);
            assert(total * (fl + lot) == (fl + lot) * total) by (nonlinear_arith);
            assert(lot * 1 == lot);
        } else {
            assert(total * 0 == 0) by (nonlinear_arith);
            assert(pool * 0 == 0) by (nonlinear_arith);
            assert(lot * 0 == 0) by (nonlinear_arith);
            vstd::arithmetic::div_mod::lemma_small_mod(0, lot as nat);
        }
    }
    sums::lemma_sum_scale(w, pool, earned);
    sums::lemma_sum_scale(f, total, low);
    sums::lemma_sum_scale(one, lot, lots);
    sums::lemma_sum_add(f, lots, upper);
    sums::lemma_sum_scale(upper, total, high);
    sums::lemma_sum_add(earned, one, short);
    sums::lemma_sum_le(low, earned);
    sums::lemma_sum_le(short, high);
    sums::lemma_sum_multiple(f, lot);
    sums::lemma_multiples_add(pool, sums::sum(f), lot);
    let n = sums::sum(one);
    assert(n > 0) by {
        sums::lemma_sum_nonneg(one);
        if n == 0 {
            assert forall|i: int| 0 <= i < held.len() implies w[i] == 0 by {
                sums::lemma_sum_bounds_element(one, i);
            }
            sums::lemma_sum_zero(w);
        }
    }
    assert(sums::sum(f) <= pool) by (nonlinear_arith)
        requires
            total * sums::sum(f) <= pool * total,
            total > 0,
    ;
    assert(pool < sums::sum(f) + lot * n) by (nonlinear_arith)
        requires
            pool * total + n <= total * (sums::sum(f) + lot * n),
            total > 0,
            n > 0,
    ;
}

/// A proportional split gives nobody more than it holds, keeps to whole lots,
/// and hands out exactly the pool on top of what the inactive makers have.
pub(crate) proof fn lemma_apportioned(
    pool: int,
    held: Seq<int>,
    weights: Seq<int>,
    active: Seq<bool>,
    lot: int,
)
    requires
        split_ok(pool, held, weights, active, lot),
    ensures
        ({
            let shares = apportioned(pool, held, weights, active, lot);
            &&& shares.len() == held.len()
            &&& sums::sum(shares) == pool + sums::sum(masked(held, negated(active)))
            &&& forall|i: int|
                0 <= i < held.len() ==> 0 <= #[trigger] shares[i] <= held[i] && shares[i] % lot == 0
        }),
{
    let base = floors(pool, held, weights, active, lot);
    let total = sums::sum(masked(weights, active));
    let left = pool - sums::sum(masked(base, active));
    let flags = room(base, held, lot);
    let after = swept(base, held, lot, left);
    lemma_floors_sum(pool, held, weights, active, lot);
    assert forall|i: int| 0 <= i < held.len() implies 0 <= #[trigger] base[i] <= held[i] && base[i]
        % lot == 0 && flags[i] == masked(ones(held.len()), active)[i] by {
        if active[i] {
            lemma_floored(pool, weights[i], total, lot);
            sums::lemma_multiples_gap(base[i], held[i], lot);
        }
    }
    assert(flags =~= masked(ones(held.len()), active));
    lemma_sweep_prefix(base, held, lot, left, held.len() as int);
    assert(after.take(held.len() as int) =~= after);
    assert(base.take(held.len() as int) =~= base);
    assert(flags.take(held.len() as int) =~= flags);
    assert forall|i: int| 0 <= i < held.len() implies 0 <= #[trigger] after[i] <= held[i]
        && after[i] % lot == 0 by {
        assert(0 <= base[i] <= held[i]);
        vstd::arithmetic::div_mod::lemma_mod_self_0(lot);
        sums::lemma_multiples_add(base[i], lot, lot);
    }
    sums::lemma_sum_add(masked(base, active), masked(held, negated(active)), base);
}

/// Hands `left` out one lot at a time, front first.
fn sweep(shares: &mut Vec<u64>, makers: &[Maker], lot: u64, left: u64)
    requires
        lot > 0,
        left as int % lot as int == 0,
        old(shares)@.len() == makers@.len(),
        forall|i: int|
            0 <= i < makers@.len() ==> #[trigger] old(shares)@[i]
                <= makers@[i].remaining_quantity.base(),
    ensures
        final(shares)@.len() == makers@.len(),
        as_ints(final(shares)@) == swept(
            as_ints(old(shares)@),
            holdings(makers@),
            lot as int,
            left as int,
        ),
{
    let ghost held = holdings(makers@);
    let ghost before = as_ints(shares@);
    let ghost flags = room(before, held, lot as int);
    let ghost after = swept(before, held, lot as int, left as int);
    let ghost start = shares@;
    let mut rest: u64 = left;
    let mut i: usize = 0;
    proof {
        assert(flags.take(0) =~= Seq::<int>::empty());
        assert(lot as int * 0 == 0) by (nonlinear_arith);
    }
    while i < makers.len() && rest > 0
        invariant
            i <= makers@.len(),
            lot > 0,
            left as int % lot as int == 0,
            held == holdings(makers@),
            start.len() == makers@.len(),
            before == as_ints(start),
            flags == room(before, held, lot as int),
            after == swept(before, held, lot as int, left as int),
            forall|j: int|
                0 <= j < makers@.len() ==> #[trigger] start[j]
                    <= makers@[j].remaining_quantity.base(),
            shares@.len() == makers@.len(),
            rest == max(0, left - lot * sums::sum(flags.take(i as int))),
            sums::sum(flags.take(i as int)) >= 0,
            forall|j: int| 0 <= j < i ==> #[trigger] shares@[j] == after[j],
            forall|j: int| i <= j < makers@.len() ==> #[trigger] shares@[j] == start[j],
        decreases makers@.len() - i,
    {
        let ghost count = sums::sum(flags.take(i as int));
        proof {
            sums::lemma_sum_step(flags, i as int);
            assert(lot * (count + 1) == lot * count + lot) by (nonlinear_arith);
            assert(lot * (count + 0) == lot * count);
            assert(shares@[i as int] == start[i as int]);
            if lot * count < left {
                vstd::arithmetic::div_mod::lemma_mod_multiples_basic(count, lot as int);
                vstd::arithmetic::mul::lemma_mul_is_commutative(count, lot as int);
                sums::lemma_multiples_gap(lot * count, left as int, lot as int);
            }
        }
        let remaining: u64 = makers[i].remaining_quantity.base();
        let share: u64 = shares[i];
        if remaining - share >= lot {
            shares.set(i, share + lot);
            rest = rest - lot;
        }
        i = i + 1;
    }
    proof {
        assert forall|j: int| i <= j < makers@.len() implies after[j] == before[j] by {
            sums::lemma_sum_prefix(flags.take(j), i as int);
            assert(flags.take(j).take(i as int) =~= flags.take(i as int));
            let a = sums::sum(flags.take(i as int));
            let b = sums::sum(flags.take(j));
            assert(lot * a <= lot * b) by (nonlinear_arith)
                requires
                    a <= b,
                    lot > 0,
            ;
        }
        assert(as_ints(shares@) =~= after);
    }
}

pub open spec fn as_ints(s: Seq<u64>) -> Seq<int> {
    s.map_values(|x: u64| x as int)
}

/// The fills of a vector of shares.
fn collect_fills(shares: &Vec<u64>) -> (r: Vec<Fill>)
    ensures
        r@ == fills_of(as_ints(shares@)),
{
    let ghost all = as_ints(shares@);
    let mut fills: Vec<Fill> = Vec::new();
    let mut i: usize = 0;
    proof {
        assert(all.take(0) =~= Seq::<int>::empty());
    }
    while i < shares.len()
        invariant
            i <= shares@.len(),
            all == as_ints(shares@),
            fills@ == fills_of(all.take(i as int)),
        decreases shares@.len() - i,
    {
        proof {
            lemma_fills_step(all, i as int);
        }
        let quantity: u64 = shares[i];
        if quantity > 0 {
            fills.push(Fill { order_index: i, quantity: Qty::from_base_unchecked(quantity) });
        }
        i = i + 1;
    }
    proof {
        assert(all.take(shares@.len() as int) =~= all);
    }
    fills
}

/// The total of a level, wide enough for any level.
fn total_of(makers: &[Maker]) -> (r: u128)
    ensures
        r == level_total(makers@),
{
    let ghost held = holdings(makers@);
    let mut total: u128 = 0;
    let mut i: usize = 0;
    proof {
        assert(held.take(0) =~= Seq::<int>::empty());
    }
    while i < makers.len()
        invariant
            i <= makers@.len(),
            held == holdings(makers@),
            total == sums::sum(held.take(i as int)),
            total <= i * 0xFFFF_FFFF_FFFF_FFFF,
        decreases makers@.len() - i,
    {
        proof {
            sums::lemma_sum_step(held, i as int);
        }
        total = total + makers[i].remaining_quantity.base() as u128;
        i = i + 1;
    }
    proof {
        assert(held.take(makers@.len() as int) =~= held);
    }
    total
}

/// Every maker's whole holding, as fills: what a taker at least as large as the
/// level takes.
fn take_everything(makers: &[Maker]) -> (r: Vec<Fill>)
    ensures
        r@ == fills_of(holdings(makers@)),
{
    let mut shares: Vec<u64> = Vec::new();
    let mut i: usize = 0;
    while i < makers.len()
        invariant
            i <= makers@.len(),
            shares@.len() == i,
            forall|j: int|
                0 <= j < i ==> #[trigger] shares@[j] == makers@[j].remaining_quantity.base(),
        decreases makers@.len() - i,
    {
        shares.push(makers[i].remaining_quantity.base());
        i = i + 1;
    }
    proof {
        assert(as_ints(shares@) =~= holdings(makers@));
    }
    collect_fills(&shares)
}

// ---------------------------------------------------------------- pro rata

/// Allocation in proportion to size: each maker earns
/// `available * held / total`, rounded down to whole lots, and the lots left
/// over go by queue position.
///
/// Floor division does not keep divisibility, so this policy has to be told the
/// lot: with lots of ten, makers of `[10, 20]` and a taker of 10, unfloored
/// shares would be `[4, 6]` and leave both makers off the grid.
#[derive(Debug, Clone, Copy, PartialEq, Eq, Structural)]
pub struct ProRataMatcher {
    pub(crate) lot_size: u64,
}

impl ProRataMatcher {
    pub open(crate) spec fn lot(self) -> u64 {
        self.lot_size
    }

    /// A policy for the given lot, in base units.
    pub fn new(lot_size: u64) -> (r: Self)
        requires
            lot_size > 0,
        ensures
            r.wf(),
            r.lot() == lot_size,
    {
        ProRataMatcher { lot_size }
    }
}

/// Who has anything to be filled.
pub open spec fn nonzero(held: Seq<int>) -> Seq<bool> {
    Seq::new(held.len(), |i: int| held[i] > 0)
}

/// What pro rata gives each maker.
pub open spec fn pro_rata_shares(available: int, held: Seq<int>, lot: int) -> Seq<int> {
    if available >= sums::sum(held) {
        held
    } else {
        apportioned(available, held, held, nonzero(held), lot)
    }
}

/// `a * b / t < b` where `a < t`.
proof fn lemma_share_below(a: int, b: int, t: int)
    requires
        0 <= a < t,
        b > 0,
    ensures
        a * b / t < b,
{
    assert(a * b < b * t) by (nonlinear_arith)
        requires
            a < t,
            b > 0,
    ;
    vstd::arithmetic::mul::lemma_mul_nonnegative(a, b);
    vstd::arithmetic::div_mod::lemma_multiply_divide_lt(a * b, t, b);
}

pub(crate) proof fn lemma_pro_rata_split(available: int, held: Seq<int>, lot: int)
    requires
        lot > 0,
        0 <= available < sums::sum(held),
        available % lot == 0,
        forall|i: int|
            #![trigger held[i]]
            0 <= i < held.len() ==> held[i] >= 0 && held[i] % lot == 0,
    ensures
        split_ok(available, held, held, nonzero(held), lot),
        masked(held, nonzero(held)) == held,
        sums::sum(masked(held, negated(nonzero(held)))) == 0,
{
    let active = nonzero(held);
    assert(masked(held, active) =~= held);
    sums::lemma_sum_zero(masked(held, negated(active)));
    assert forall|i: int| 0 <= i < held.len() && active[i] implies held[i] >= 0 && available
        * held[i] / sums::sum(masked(held, active)) < held[i] by {
        lemma_share_below(available, held[i], sums::sum(held));
    }
}

proof fn lemma_pro_rata_conforms(available: Qty, makers: Seq<Maker>, lot: u64)
    requires
        makers.len() <= usize::MAX,
        on_grid(Some(lot), available, makers),
    ensures
        conforms(
            Some(lot),
            available,
            makers,
            fills_of(pro_rata_shares(available.base() as int, holdings(makers), lot as int)),
        ),
{
    let held = holdings(makers);
    let shares = pro_rata_shares(available.base() as int, held, lot as int);
    assert forall|i: int|
        #![trigger held[i]]
        0 <= i < held.len() implies held[i] >= 0 && held[i] % lot as int == 0 by {
        assert(makers[i].remaining_quantity.base() as int % lot as int == 0);
    }
    if available.base() < sums::sum(held) {
        lemma_pro_rata_split(available.base() as int, held, lot as int);
        lemma_apportioned(available.base() as int, held, held, nonzero(held), lot as int);
    }
    lemma_shares_conform(Some(lot), shares, available, makers);
}

impl MatchingAlgorithm for ProRataMatcher {
    open(crate) spec fn wf(&self) -> bool {
        self.lot_size > 0
    }

    open(crate) spec fn spec_lot_size(&self) -> Option<u64> {
        Some(self.lot_size)
    }

    open(crate) spec fn allocation(&self, available: Qty, makers: Seq<Maker>, now: u128) -> Seq<
        Fill,
    > {
        fills_of(
            pro_rata_shares(available.base() as int, holdings(makers), self.lot_size as int),
        )
    }

    proof fn allocation_conforms(&self, available: Qty, makers: Seq<Maker>, now: u128) {
        lemma_pro_rata_conforms(available, makers, self.lot_size);
    }

    fn allocate(&self, available: Qty, makers: &[Maker], now: u128) -> (r: Vec<Fill>) {
        let available: u64 = available.base();
        let count: usize = makers.len();
        let total: u128 = total_of(makers);
        let ghost held = holdings(makers@);
        let ghost active = nonzero(held);
        let lot: u128 = self.lot_size as u128;
        proof {
            lemma_pro_rata_conforms(qty_of(available as int), makers@, self.lot_size);
        }
        if available as u128 >= total {
            return take_everything(makers);
        }
        proof {
            assert forall|i: int|
                #![trigger held[i]]
                0 <= i < held.len() implies held[i] >= 0 && held[i] % lot as int == 0 by {
                assert(makers@[i].remaining_quantity.base() as int % lot as int == 0);
            }
            lemma_pro_rata_split(available as int, held, lot as int);
            lemma_floors_sum(available as int, held, held, active, lot as int);
        }
        let ghost base = floors(available as int, held, held, active, lot as int);
        let mut shares: Vec<u64> = Vec::new();
        let mut allocated: u64 = 0;
        let mut i: usize = 0;
        proof {
            assert(base.take(0) =~= Seq::<int>::empty());
            assert(masked(base, active) =~= base);
            assert forall|j: int| 0 <= j < base.len() implies #[trigger] base[j] >= 0 by {
                if active[j] {
                    lemma_floored(available as int, held[j], total as int, lot as int);
                }
            }
        }
        while i < count
            invariant
                i <= count,
                count == makers@.len(),
                lot == self.lot_size,
                lot > 0,
                held == holdings(makers@),
                active == nonzero(held),
                total == sums::sum(held),
                available < total,
                base == floors(available as int, held, held, active, lot as int),
                masked(held, active) == held,
                sums::sum(base) <= available,
                forall|j: int| 0 <= j < base.len() ==> #[trigger] base[j] >= 0,
                shares@.len() == i,
                forall|j: int|
                    0 <= j < i ==> #[trigger] shares@[j] == base[j] && shares@[j]
                        <= makers@[j].remaining_quantity.base(),
                allocated == sums::sum(base.take(i as int)),
            decreases makers@.len() - i,
        {
            let remaining: u64 = makers[i].remaining_quantity.base();
            proof {
                instrument::lemma_product_of_u64_fits(available, remaining);
                sums::lemma_sum_step(base, i as int);
                sums::lemma_sum_prefix(base, i + 1);
                lemma_floored(available as int, remaining as int, total as int, lot as int);
                if remaining > 0 {
                    lemma_share_below(available as int, remaining as int, total as int);
                } else {
                    assert(available * 0 == 0);
                    assert(0int / total as int == 0) by {
                        vstd::arithmetic::div_mod::lemma_div_of0(total as int);
                    }
                }
            }
            let exact: u128 = (available as u128) * (remaining as u128) / total;
            let share: u64 = ((exact / lot) * lot) as u64;
            shares.push(share);
            allocated = allocated + share;
            i = i + 1;
        }
        proof {
            assert(base.take(makers@.len() as int) =~= base);
            assert(as_ints(shares@) =~= base);
        }
        let left: u64 = available - allocated;
        sweep(&mut shares, makers, self.lot_size, left);
        collect_fills(&shares)
    }

    fn lot_size(&self) -> (r: Option<u64>) {
        Some(self.lot_size)
    }
}

// ---------------------------------------------------------------- time-weighted pro rata

/// Allocation in proportion to size and to time at rest.
///
/// A maker's weight is what it holds times its age, so a share can exceed the
/// holding. Such a maker is capped at what it holds, the rest goes back into the
/// pool, and the shares of those still in the running are worked out again,
/// until nobody is over.
#[derive(Debug, Clone, Copy, PartialEq, Eq, Structural)]
pub struct TimeProRataMatcher {
    pub(crate) lot_size: u64,
    pub(crate) tick: u128,
    pub(crate) max_age_ticks: u128,
}

/// The age of a maker in ticks: at least one, at most the cap. One that arrives
/// after `now` counts as new.
pub open spec fn age(arrival: int, now: int, tick: int, max_age: int) -> int {
    min(max_age, max(1, max(0, now - arrival) / tick))
}

/// The power of two that brings a weight down to 64 bits.
pub open spec fn scale_divisor(peak: int) -> int
    decreases peak,
{
    if peak <= u64::MAX {
        1
    } else {
        2 * scale_divisor(peak / 2)
    }
}

/// The largest element, or zero.
pub open spec fn peak(s: Seq<int>) -> int
    decreases s.len(),
{
    if s.len() == 0 {
        0
    } else {
        max(peak(s.drop_last()), s.last())
    }
}

/// Holding times age, before scaling.
pub open spec fn raw_weights(makers: Seq<Maker>, now: int, tick: int, max_age: int) -> Seq<int> {
    makers.map_values(
        |m: Maker| m.remaining_quantity.base() * age(m.arrival as int, now, tick, max_age),
    )
}

/// Weights scaled down by one common power of two so that each fits 64 bits; a
/// weight that would vanish stays at one.
pub open spec fn scaled_weights(raw: Seq<int>) -> Seq<int> {
    raw.map_values(|w: int| max(1, w / scale_divisor(peak(raw))))
}

pub(crate) proof fn lemma_scale_divisor(peak: int)
    ensures
        scale_divisor(peak) >= 1,
        peak >= 0 ==> peak / scale_divisor(peak) <= u64::MAX,
        peak >= 1 ==> scale_divisor(peak) <= peak,
    decreases peak,
{
    if peak > u64::MAX {
        lemma_scale_divisor(peak / 2);
        vstd::arithmetic::div_mod::lemma_div_denominator(peak, 2, scale_divisor(peak / 2));
    }
}

pub(crate) proof fn lemma_peak(s: Seq<int>, i: int)
    requires
        0 <= i < s.len(),
    ensures
        s[i] <= peak(s),
        peak(s) >= 0,
    decreases s.len(),
{
    if s.len() > 1 && i < s.len() - 1 {
        lemma_peak(s.drop_last(), i);
    } else if s.len() > 1 {
        lemma_peak(s.drop_last(), 0);
    } else {
        assert(peak(s.drop_last()) == 0);
    }
}

pub(crate) proof fn lemma_scaled_weight(raw: Seq<int>, i: int)
    requires
        0 <= i < raw.len(),
        raw[i] >= 0,
    ensures
        1 <= scaled_weights(raw)[i] <= u64::MAX,
{
    lemma_scale_divisor(peak(raw));
    lemma_peak(raw, i);
    vstd::arithmetic::div_mod::lemma_div_is_ordered(
        raw[i],
        peak(raw),
        scale_divisor(peak(raw)),
    );
}

impl TimeProRataMatcher {
    /// One arrival, one tick.
    pub const DEFAULT_TICK: u128 = 1;

    /// Past this age patience stops paying.
    pub const DEFAULT_MAX_AGE_TICKS: u128 = 65_535;

    pub open(crate) spec fn lot(self) -> u64 {
        self.lot_size
    }

    pub open(crate) spec fn spec_tick(self) -> u128 {
        self.tick
    }

    pub open(crate) spec fn spec_max_age(self) -> u128 {
        self.max_age_ticks
    }

    /// A policy for the given lot, in base units, that counts single arrivals
    /// up to the default age cap.
    pub fn new(lot_size: u64) -> (r: Self)
        requires
            lot_size > 0,
        ensures
            r.wf(),
            r.lot() == lot_size,
            r.spec_tick() == Self::DEFAULT_TICK,
            r.spec_max_age() == Self::DEFAULT_MAX_AGE_TICKS,
    {
        TimeProRataMatcher {
            lot_size,
            tick: Self::DEFAULT_TICK,
            max_age_ticks: Self::DEFAULT_MAX_AGE_TICKS,
        }
    }

    /// The same policy with ages measured in steps of `tick` arrivals.
    pub fn with_tick(self, tick: u128) -> (r: Self)
        requires
            tick > 0,
            self.wf(),
        ensures
            r.wf(),
            r.lot() == self.lot(),
            r.spec_tick() == tick,
            r.spec_max_age() == self.spec_max_age(),
    {
        TimeProRataMatcher { tick, ..self }
    }

    /// The same policy with another age cap, which has to fit 64 bits.
    pub fn with_max_age(self, max_age_ticks: u128) -> (r: Self)
        requires
            0 < max_age_ticks <= u64::MAX,
            self.wf(),
        ensures
            r.wf(),
            r.lot() == self.lot(),
            r.spec_tick() == self.spec_tick(),
            r.spec_max_age() == max_age_ticks,
    {
        TimeProRataMatcher { max_age_ticks, ..self }
    }

    /// How long a maker has rested, in ticks.
    pub fn age_ticks(&self, maker: &Maker, now: u128) -> (r: u128)
        requires
            self.wf(),
        ensures
            r == age(
                maker.arrival as int,
                now as int,
                self.spec_tick() as int,
                self.spec_max_age() as int,
            ),
            r == (if now <= maker.arrival || (now - maker.arrival) / (self.spec_tick() as int)
                < 1 {
                1
            } else if (now - maker.arrival) / (self.spec_tick() as int) > self.spec_max_age() {
                self.spec_max_age() as int
            } else {
                (now - maker.arrival) / (self.spec_tick() as int)
            }),
            1 <= r <= u64::MAX,
    {
        let elapsed: u128 = now.saturating_sub(maker.arrival);
        let ticks: u128 = elapsed / self.tick;
        if ticks < 1 {
            1
        } else if ticks > self.max_age_ticks {
            self.max_age_ticks
        } else {
            ticks
        }
    }

    /// The weights of a level.
    pub open spec fn spec_weights(self, makers: Seq<Maker>, now: int) -> Seq<int> {
        scaled_weights(
            raw_weights(makers, now, self.spec_tick() as int, self.spec_max_age() as int),
        )
    }

    /// The weights of a level, each between one and the largest 64-bit number.
    pub fn weights(&self, makers: &[Maker], now: u128) -> (r: Vec<u128>)
        requires
            self.wf(),
        ensures
            r@.len() == makers@.len(),
            r@.map_values(|w: u128| w as int) == self.spec_weights(makers@, now as int),
            forall|i: int| 0 <= i < r@.len() ==> 1 <= #[trigger] r@[i] <= u64::MAX,
    {
        let ghost raw = raw_weights(
            makers@,
            now as int,
            self.spec_tick() as int,
            self.spec_max_age() as int,
        );
        let mut largest: u128 = 0;
        let mut i: usize = 0;
        proof {
            assert(raw.take(0) =~= Seq::<int>::empty());
        }
        while i < makers.len()
            invariant
                i <= makers@.len(),
                self.wf(),
                raw == raw_weights(
                    makers@,
                    now as int,
                    self.spec_tick() as int,
                    self.spec_max_age() as int,
                ),
                largest == peak(raw.take(i as int)),
                forall|j: int| 0 <= j < i ==> #[trigger] raw[j] >= 0,
            decreases makers@.len() - i,
        {
            let weight: u128 = self.raw_weight(&makers[i], now);
            proof {
                assert(raw.take(i + 1).drop_last() =~= raw.take(i as int));
            }
            if weight > largest {
                largest = weight;
            }
            i = i + 1;
        }
        proof {
            assert(raw.take(makers@.len() as int) =~= raw);
            lemma_scale_divisor(largest as int);
        }
        let divisor: u128 = divisor_for(largest);
        let mut weights: Vec<u128> = Vec::new();
        let mut k: usize = 0;
        while k < makers.len()
            invariant
                k <= makers@.len(),
                self.wf(),
                raw == raw_weights(
                    makers@,
                    now as int,
                    self.spec_tick() as int,
                    self.spec_max_age() as int,
                ),
                divisor == scale_divisor(peak(raw)),
                divisor >= 1,
                weights@.len() == k,
                forall|j: int| 0 <= j < makers@.len() ==> #[trigger] raw[j] >= 0,
                forall|j: int|
                    0 <= j < k ==> #[trigger] weights@[j] == scaled_weights(raw)[j] && 1
                        <= weights@[j] <= u64::MAX,
            decreases makers@.len() - k,
        {
            let scaled: u128 = self.raw_weight(&makers[k], now) / divisor;
            proof {
                lemma_scaled_weight(raw, k as int);
            }
            weights.push(
                if scaled < 1 {
                    1
                } else {
                    scaled
                },
            );
            k = k + 1;
        }
        proof {
            assert(weights@.map_values(|w: u128| w as int) =~= scaled_weights(raw));
        }
        weights
    }

    /// Holding times age.
    fn raw_weight(&self, maker: &Maker, now: u128) -> (r: u128)
        requires
            self.wf(),
        ensures
            r == maker.remaining_quantity.base() * age(
                maker.arrival as int,
                now as int,
                self.spec_tick() as int,
                self.spec_max_age() as int,
            ),
    {
        let ticks: u128 = self.age_ticks(maker, now);
        let held: u64 = maker.remaining_quantity.base();
        proof {
            instrument::lemma_product_of_u64_fits(held, ticks as u64);
        }
        (held as u128) * ticks
    }
}

/// The power of two that brings `largest` down to 64 bits.
fn divisor_for(largest: u128) -> (r: u128)
    ensures
        r == scale_divisor(largest as int),
{
    let mut rest: u128 = largest;
    let mut divisor: u128 = 1;
    proof {
        lemma_scale_divisor(largest as int);
    }
    while rest > u64::MAX as u128
        invariant
            divisor >= 1,
            divisor * scale_divisor(rest as int) == scale_divisor(largest as int),
            scale_divisor(largest as int) <= u128::MAX,
        decreases rest,
    {
        proof {
            let half = scale_divisor((rest / 2) as int);
            lemma_scale_divisor((rest / 2) as int);
            assert(divisor * (2 * half) == (divisor * 2) * half) by (nonlinear_arith);
            assert(divisor * 2 <= (divisor * 2) * half) by (nonlinear_arith)
                requires
                    half >= 1,
                    divisor >= 1,
            ;
        }
        divisor = divisor * 2;
        rest = rest / 2;
    }
    proof {
        assert(divisor * 1 == divisor);
    }
    divisor
}

/// What is left to share once the capped makers have all that they hold.
pub open spec fn pool_after(available: int, held: Seq<int>, capped: Seq<bool>) -> int {
    available - sums::sum(masked(held, capped))
}

/// Whether a maker that is still in the running would earn at least what it
/// holds.
pub open spec fn overruns(
    available: int,
    held: Seq<int>,
    weights: Seq<int>,
    capped: Seq<bool>,
    i: int,
) -> bool {
    !capped[i] && pool_after(available, held, capped) * weights[i] / sums::sum(
        masked(weights, negated(capped)),
    ) >= held[i]
}

/// The makers that are capped after one more round.
pub open spec fn capped_next(
    available: int,
    held: Seq<int>,
    weights: Seq<int>,
    capped: Seq<bool>,
) -> Seq<bool> {
    Seq::new(
        capped.len(),
        |i: int| capped[i] || overruns(available, held, weights, capped, i),
    )
}

/// How many makers are still in the running.
pub open spec fn running(capped: Seq<bool>) -> nat {
    capped.filter(|c: bool| !c).len()
}

/// The makers that end up capped: round after round, until nobody in the running
/// would earn what it holds.
pub open spec fn settled(
    available: int,
    held: Seq<int>,
    weights: Seq<int>,
    capped: Seq<bool>,
) -> Seq<bool>
    decreases running(capped),
{
    if exists|i: int|
        0 <= i < capped.len() && #[trigger] overruns(available, held, weights, capped, i) {
        proof {
            lemma_running_drops(
                capped,
                capped_next(available, held, weights, capped),
                choose|i: int|
                    0 <= i < capped.len() && #[trigger] overruns(
                        available,
                        held,
                        weights,
                        capped,
                        i,
                    ),
            );
        }
        settled(available, held, weights, capped_next(available, held, weights, capped))
    } else {
        capped
    }
}

proof fn lemma_running_step(capped: Seq<bool>)
    requires
        capped.len() > 0,
    ensures
        running(capped) == running(capped.drop_last()) + (if capped.last() {
            0nat
        } else {
            1nat
        }),
{
    let p = |c: bool| !c;
    assert(capped =~= capped.drop_last().push(capped.last()));
    capped.drop_last().lemma_filter_push(capped.last(), p);
}

proof fn lemma_running_le(a: Seq<bool>, b: Seq<bool>)
    requires
        a.len() == b.len(),
        forall|i: int| 0 <= i < a.len() && a[i] ==> b[i],
    ensures
        running(b) <= running(a),
    decreases a.len(),
{
    if a.len() > 0 {
        lemma_running_le(a.drop_last(), b.drop_last());
        lemma_running_step(a);
        lemma_running_step(b);
        assert(a[a.len() - 1] ==> b[a.len() - 1]);
    } else {
        assert(a =~= b);
    }
}

pub proof fn lemma_running_drops(a: Seq<bool>, b: Seq<bool>, k: int)
    requires
        a.len() == b.len(),
        forall|i: int| 0 <= i < a.len() && a[i] ==> b[i],
        0 <= k < a.len(),
        !a[k],
        b[k],
    ensures
        running(b) < running(a),
    decreases a.len(),
{
    lemma_running_step(a);
    lemma_running_step(b);
    assert(a[a.len() - 1] ==> b[a.len() - 1]);
    if k == a.len() - 1 {
        lemma_running_le(a.drop_last(), b.drop_last());
    } else {
        lemma_running_drops(a.drop_last(), b.drop_last(), k);
    }
}

/// Nobody is capped to begin with but those that hold nothing.
pub open spec fn empty_handed(held: Seq<int>) -> Seq<bool> {
    Seq::new(held.len(), |i: int| held[i] <= 0)
}

/// What time-weighted pro rata gives each maker.
pub open spec fn time_shares(
    available: int,
    held: Seq<int>,
    weights: Seq<int>,
    lot: int,
) -> Seq<int> {
    if available >= sums::sum(held) {
        held
    } else {
        let capped = settled(available, held, weights, empty_handed(held));
        apportioned(pool_after(available, held, capped), held, weights, negated(capped), lot)
    }
}

/// What holds of the capped makers in every round: the pool is not overdrawn,
/// and those in the running hold more than the pool.
pub open spec fn round_ok(
    available: int,
    held: Seq<int>,
    weights: Seq<int>,
    capped: Seq<bool>,
    lot: int,
) -> bool {
    &&& held.len() == weights.len() == capped.len()
    &&& lot > 0
    &&& available % lot == 0
    &&& forall|i: int|
        #![trigger held[i]]
        0 <= i < held.len() ==> held[i] >= 0 && held[i] % lot == 0
    &&& forall|i: int| 0 <= i < held.len() ==> #[trigger] weights[i] >= 1
    &&& forall|i: int| 0 <= i < held.len() && !#[trigger] capped[i] ==> held[i] > 0
    &&& 0 <= pool_after(available, held, capped) < sums::sum(masked(held, negated(capped)))
}

pub(crate) proof fn lemma_round_weight(
    available: int,
    held: Seq<int>,
    weights: Seq<int>,
    capped: Seq<bool>,
    lot: int,
)
    requires
        round_ok(available, held, weights, capped, lot),
    ensures
        sums::sum(masked(weights, negated(capped))) > 0,
        pool_after(available, held, capped) % lot == 0,
        pool_after(available, held, capped) <= available,
{
    let w = masked(weights, negated(capped));
    let h = masked(held, negated(capped));
    sums::lemma_sum_nonneg(w);
    if sums::sum(w) == 0 {
        assert forall|i: int| 0 <= i < held.len() implies h[i] == 0 by {
            sums::lemma_sum_bounds_element(w, i);
            if !capped[i] {
                assert(w[i] == weights[i]);
            }
        }
        sums::lemma_sum_zero(h);
    }
    let m = masked(held, capped);
    assert forall|i: int| 0 <= i < m.len() implies m[i] % lot == 0 && m[i] >= 0 by {
        assert(held[i] % lot == 0);
        vstd::arithmetic::div_mod::lemma_small_mod(0, lot as nat);
    }
    sums::lemma_sum_nonneg(m);
    sums::lemma_sum_multiple(m, lot);
    sums::lemma_multiples_add(available, sums::sum(m), lot);
}

/// The makers that one round caps.
pub open spec fn newly_capped(
    available: int,
    held: Seq<int>,
    weights: Seq<int>,
    capped: Seq<bool>,
) -> Seq<bool> {
    Seq::new(capped.len(), |i: int| overruns(available, held, weights, capped, i))
}

pub(crate) proof fn lemma_round(
    available: int,
    held: Seq<int>,
    weights: Seq<int>,
    capped: Seq<bool>,
    lot: int,
)
    requires
        round_ok(available, held, weights, capped, lot),
    ensures
        round_ok(available, held, weights, capped_next(available, held, weights, capped), lot),
        ({
            let newly = newly_capped(available, held, weights, capped);
            let next = capped_next(available, held, weights, capped);
            &&& sums::sum(masked(held, newly)) <= pool_after(available, held, capped)
            &&& pool_after(available, held, next) == pool_after(available, held, capped)
                - sums::sum(masked(held, newly))
        }),
{
    lemma_round_weight(available, held, weights, capped, lot);
    let newly = newly_capped(available, held, weights, capped);
    let next = capped_next(available, held, weights, capped);
    let pool = pool_after(available, held, capped);
    let total = sums::sum(masked(weights, negated(capped)));
    let h = masked(held, newly);
    let w = masked(weights, newly);
    let scaled = Seq::new(held.len(), |i: int| total * h[i]);
    let earned = Seq::new(held.len(), |i: int| pool * w[i]);
    assert forall|i: int| 0 <= i < held.len() implies scaled[i] <= earned[i] && w[i] <= masked(
        weights,
        negated(capped),
    )[i] by {
        assert(weights[i] >= 1);
        if newly[i] {
            let x = pool * weights[i] / total;
            vstd::arithmetic::div_mod::lemma_fundamental_div_mod(pool * weights[i], total);
            assert(total * held[i] <= total * x) by (nonlinear_arith)
                requires
                    held[i] <= x,
                    total > 0,
            ;
        } else {
            assert(total * 0 == 0) by (nonlinear_arith);
            assert(pool * 0 == 0) by (nonlinear_arith);
        }
    }
    sums::lemma_sum_scale(h, total, scaled);
    sums::lemma_sum_scale(w, pool, earned);
    sums::lemma_sum_le(scaled, earned);
    sums::lemma_sum_le(w, masked(weights, negated(capped)));
    assert(pool * sums::sum(w) <= pool * total) by (nonlinear_arith)
        requires
            pool >= 0,
            sums::sum(w) <= total,
    ;
    assert(sums::sum(h) <= pool) by (nonlinear_arith)
        requires
            total * sums::sum(h) <= pool * total,
            total > 0,
    ;
    sums::lemma_sum_add(masked(held, capped), h, masked(held, next));
    sums::lemma_sum_add(masked(held, negated(next)), h, masked(held, negated(capped)));
}

pub(crate) proof fn lemma_settled(
    available: int,
    held: Seq<int>,
    weights: Seq<int>,
    capped: Seq<bool>,
    lot: int,
)
    requires
        round_ok(available, held, weights, capped, lot),
    ensures
        ({
            let end = settled(available, held, weights, capped);
            &&& round_ok(available, held, weights, end, lot)
            &&& forall|i: int|
                0 <= i < end.len() ==> !#[trigger] overruns(available, held, weights, end, i)
        }),
    decreases running(capped),
{
    if exists|i: int|
        0 <= i < capped.len() && #[trigger] overruns(available, held, weights, capped, i) {
        let next = capped_next(available, held, weights, capped);
        lemma_running_drops(
            capped,
            next,
            choose|i: int|
                0 <= i < capped.len() && #[trigger] overruns(available, held, weights, capped, i),
        );
        lemma_round(available, held, weights, capped, lot);
        lemma_settled(available, held, weights, next, lot);
    }
}

pub(crate) proof fn lemma_settled_split(
    available: int,
    held: Seq<int>,
    weights: Seq<int>,
    end: Seq<bool>,
    lot: int,
)
    requires
        round_ok(available, held, weights, end, lot),
        forall|i: int| 0 <= i < end.len() ==> !#[trigger] overruns(available, held, weights, end, i),
    ensures
        split_ok(pool_after(available, held, end), held, weights, negated(end), lot),
        negated(negated(end)) == end,
{
    lemma_round_weight(available, held, weights, end, lot);
    assert(negated(negated(end)) =~= end);
    let active = negated(end);
    let pool = pool_after(available, held, end);
    assert forall|i: int|
        #![trigger weights[i]]
        #![trigger active[i]]
        0 <= i < held.len() && active[i] implies weights[i] >= 0 && pool * weights[i] / sums::sum(
        masked(weights, active),
    ) < held[i] by {
        assert(!overruns(available, held, weights, end, i));
    }
}

pub(crate) proof fn lemma_first_round(available: int, held: Seq<int>, weights: Seq<int>, lot: int)
    requires
        held.len() == weights.len(),
        lot > 0,
        0 <= available < sums::sum(held),
        available % lot == 0,
        forall|i: int|
            #![trigger held[i]]
            0 <= i < held.len() ==> held[i] >= 0 && held[i] % lot == 0,
        forall|i: int| 0 <= i < held.len() ==> #[trigger] weights[i] >= 1,
    ensures
        round_ok(available, held, weights, empty_handed(held), lot),
        pool_after(available, held, empty_handed(held)) == available,
{
    let capped = empty_handed(held);
    sums::lemma_sum_zero(masked(held, capped));
    assert(masked(held, negated(capped)) =~= held);
}

proof fn lemma_time_conforms(available: Qty, makers: Seq<Maker>, weights: Seq<int>, lot: u64)
    requires
        makers.len() <= usize::MAX,
        on_grid(Some(lot), available, makers),
        weights.len() == makers.len(),
        forall|i: int| 0 <= i < weights.len() ==> #[trigger] weights[i] >= 1,
    ensures
        conforms(
            Some(lot),
            available,
            makers,
            fills_of(time_shares(available.base() as int, holdings(makers), weights, lot as int)),
        ),
{
    let held = holdings(makers);
    let a = available.base() as int;
    let shares = time_shares(a, held, weights, lot as int);
    assert forall|i: int|
        #![trigger held[i]]
        0 <= i < held.len() implies held[i] >= 0 && held[i] % lot as int == 0 by {
        assert(makers[i].remaining_quantity.base() as int % lot as int == 0);
    }
    if a < sums::sum(held) {
        lemma_first_round(a, held, weights, lot as int);
        lemma_settled(a, held, weights, empty_handed(held), lot as int);
        let end = settled(a, held, weights, empty_handed(held));
        lemma_settled_split(a, held, weights, end, lot as int);
        lemma_apportioned(
            pool_after(a, held, end),
            held,
            weights,
            negated(end),
            lot as int,
        );
    }
    lemma_shares_conform(Some(lot), shares, available, makers);
}

/// Who has all that it holds.
pub open spec fn full(shares: Seq<int>, held: Seq<int>) -> Seq<bool> {
    Seq::new(held.len(), |i: int| shares[i] >= held[i])
}

pub open spec fn wide_ints(s: Seq<u128>) -> Seq<int> {
    s.map_values(|x: u128| x as int)
}

/// The weight of those still in the running.
fn running_weight(weights: &Vec<u128>, shares: &Vec<u64>, makers: &[Maker]) -> (r: u128)
    requires
        weights@.len() == shares@.len() == makers@.len(),
        forall|i: int| 0 <= i < weights@.len() ==> #[trigger] weights@[i] <= u64::MAX,
    ensures
        r == sums::sum(
            masked(
                wide_ints(weights@),
                negated(full(as_ints(shares@), holdings(makers@))),
            ),
        ),
{
    let ghost w = masked(
        wide_ints(weights@),
        negated(full(as_ints(shares@), holdings(makers@))),
    );
    let mut total: u128 = 0;
    let mut i: usize = 0;
    proof {
        assert(w.take(0) =~= Seq::<int>::empty());
    }
    while i < makers.len()
        invariant
            i <= makers@.len(),
            weights@.len() == shares@.len() == makers@.len(),
            forall|j: int| 0 <= j < weights@.len() ==> #[trigger] weights@[j] <= u64::MAX,
            w == masked(
                wide_ints(weights@),
                negated(full(as_ints(shares@), holdings(makers@))),
            ),
            total == sums::sum(w.take(i as int)),
            total <= i * 0xFFFF_FFFF_FFFF_FFFF,
        decreases makers@.len() - i,
    {
        proof {
            sums::lemma_sum_step(w, i as int);
        }
        if shares[i] < makers[i].remaining_quantity.base() {
            total = total + weights[i];
        }
        i = i + 1;
    }
    proof {
        assert(w.take(makers@.len() as int) =~= w);
    }
    total
}

/// Gives everyone who would earn at least what it holds all that it holds, and
/// returns how much that took.
fn cap_overruns(
    shares: &mut Vec<u64>,
    makers: &[Maker],
    weights: &Vec<u128>,
    available: u64,
    pool: u128,
    weight_total: u128,
    lot: u64,
) -> (r: u128)
    requires
        old(shares)@.len() == makers@.len(),
        round_ok(
            available as int,
            holdings(makers@),
            wide_ints(weights@),
            full(as_ints(old(shares)@), holdings(makers@)),
            lot as int,
        ),
        pool == pool_after(
            available as int,
            holdings(makers@),
            full(as_ints(old(shares)@), holdings(makers@)),
        ),
        weight_total == sums::sum(
            masked(
                wide_ints(weights@),
                negated(full(as_ints(old(shares)@), holdings(makers@))),
            ),
        ),
        forall|i: int| 0 <= i < weights@.len() ==> #[trigger] weights@[i] <= u64::MAX,
        forall|i: int|
            0 <= i < makers@.len() ==> #[trigger] old(shares)@[i] == 0 || old(shares)@[i]
                == makers@[i].remaining_quantity.base(),
    ensures
        final(shares)@.len() == makers@.len(),
        full(as_ints(final(shares)@), holdings(makers@)) == capped_next(
            available as int,
            holdings(makers@),
            wide_ints(weights@),
            full(as_ints(old(shares)@), holdings(makers@)),
        ),
        forall|i: int|
            0 <= i < makers@.len() ==> #[trigger] final(shares)@[i] == 0 || final(shares)@[i]
                == makers@[i].remaining_quantity.base(),
        r == sums::sum(
            masked(
                holdings(makers@),
                newly_capped(
                    available as int,
                    holdings(makers@),
                    wide_ints(weights@),
                    full(as_ints(old(shares)@), holdings(makers@)),
                ),
            ),
        ),
{
    let ghost a = available as int;
    let ghost held = holdings(makers@);
    let ghost w = wide_ints(weights@);
    let ghost start = shares@;
    let ghost capped = full(as_ints(start), held);
    let ghost next = capped_next(a, held, w, capped);
    let ghost newly = newly_capped(a, held, w, capped);
    let ghost taken = masked(held, newly);
    let mut total: u128 = 0;
    let mut i: usize = 0;
    proof {
        assert(taken.take(0) =~= Seq::<int>::empty());
        lemma_round(a, held, w, capped, lot as int);
        lemma_round_weight(a, held, w, capped, lot as int);
    }
    while i < makers.len()
        invariant
            i <= makers@.len(),
            a == available,
            held == holdings(makers@),
            w == wide_ints(weights@),
            start.len() == makers@.len(),
            weights@.len() == makers@.len(),
            capped == full(as_ints(start), held),
            next == capped_next(a, held, w, capped),
            newly == newly_capped(a, held, w, capped),
            taken == masked(held, newly),
            round_ok(a, held, w, capped, lot as int),
            pool == pool_after(a, held, capped),
            pool <= available,
            weight_total == sums::sum(masked(w, negated(capped))),
            weight_total > 0,
            sums::sum(taken) <= pool,
            forall|j: int| 0 <= j < weights@.len() ==> #[trigger] weights@[j] <= u64::MAX,
            forall|j: int|
                0 <= j < makers@.len() ==> #[trigger] start[j] == 0 || start[j]
                    == makers@[j].remaining_quantity.base(),
            shares@.len() == makers@.len(),
            forall|j: int| i <= j < makers@.len() ==> #[trigger] shares@[j] == start[j],
            forall|j: int|
                0 <= j < i ==> #[trigger] shares@[j] == (if newly[j] {
                    makers@[j].remaining_quantity.base()
                } else {
                    start[j]
                }),
            total == sums::sum(taken.take(i as int)),
        decreases makers@.len() - i,
    {
        let remaining: u64 = makers[i].remaining_quantity.base();
        proof {
            sums::lemma_sum_step(taken, i as int);
            assert forall|j: int| 0 <= j < taken.len() implies taken[j] >= 0 by {
                assert(held[j] >= 0);
            }
            sums::lemma_sum_prefix(taken, i + 1);
            assert(shares@[i as int] == start[i as int]);
            assert(weights@[i as int] <= u64::MAX);
            instrument::lemma_product_of_u64_fits(pool as u64, weights@[i as int] as u64);
        }
        if shares[i] < remaining {
            if pool * weights[i] / weight_total >= remaining as u128 {
                shares.set(i, remaining);
                total = total + remaining as u128;
            }
        }
        i = i + 1;
    }
    proof {
        assert(taken.take(makers@.len() as int) =~= taken);
        assert(full(as_ints(shares@), held) =~= next);
    }
    total
}

/// Gives everyone in the running its floored share of the pool, and returns how
/// much that took.
fn floor_running(
    shares: &mut Vec<u64>,
    makers: &[Maker],
    weights: &Vec<u128>,
    pool: u64,
    weight_total: u128,
    lot: u64,
) -> (r: u64)
    requires
        old(shares)@.len() == makers@.len(),
        split_ok(
            pool as int,
            holdings(makers@),
            wide_ints(weights@),
            negated(full(as_ints(old(shares)@), holdings(makers@))),
            lot as int,
        ),
        weight_total == sums::sum(
            masked(
                wide_ints(weights@),
                negated(full(as_ints(old(shares)@), holdings(makers@))),
            ),
        ),
        forall|i: int| 0 <= i < weights@.len() ==> #[trigger] weights@[i] <= u64::MAX,
        forall|i: int|
            0 <= i < makers@.len() ==> #[trigger] old(shares)@[i]
                <= makers@[i].remaining_quantity.base(),
    ensures
        final(shares)@.len() == makers@.len(),
        as_ints(final(shares)@) == floors(
            pool as int,
            holdings(makers@),
            wide_ints(weights@),
            negated(full(as_ints(old(shares)@), holdings(makers@))),
            lot as int,
        ),
        forall|i: int|
            0 <= i < makers@.len() ==> #[trigger] final(shares)@[i]
                <= makers@[i].remaining_quantity.base(),
        r <= pool,
        r == sums::sum(
            masked(
                as_ints(final(shares)@),
                negated(full(as_ints(old(shares)@), holdings(makers@))),
            ),
        ),
{
    let ghost held = holdings(makers@);
    let ghost w = wide_ints(weights@);
    let ghost start = shares@;
    let ghost active = negated(full(as_ints(start), held));
    let ghost base = floors(pool as int, held, w, active, lot as int);
    let ghost part = masked(base, active);
    let mut allocated: u64 = 0;
    let mut i: usize = 0;
    proof {
        assert(part.take(0) =~= Seq::<int>::empty());
        lemma_floors_sum(pool as int, held, w, active, lot as int);
        assert forall|j: int| 0 <= j < part.len() implies part[j] >= 0 by {
            if active[j] {
                lemma_floored(pool as int, w[j], weight_total as int, lot as int);
            }
        }
    }
    while i < makers.len()
        invariant
            i <= makers@.len(),
            held == holdings(makers@),
            w == wide_ints(weights@),
            start.len() == makers@.len(),
            weights@.len() == makers@.len(),
            active == negated(full(as_ints(start), held)),
            base == floors(pool as int, held, w, active, lot as int),
            part == masked(base, active),
            split_ok(pool as int, held, w, active, lot as int),
            weight_total == sums::sum(masked(w, active)),
            sums::sum(part) <= pool,
            forall|j: int| 0 <= j < part.len() ==> part[j] >= 0,
            forall|j: int| 0 <= j < weights@.len() ==> #[trigger] weights@[j] <= u64::MAX,
            forall|j: int|
                0 <= j < makers@.len() ==> #[trigger] start[j]
                    <= makers@[j].remaining_quantity.base(),
            shares@.len() == makers@.len(),
            forall|j: int| i <= j < makers@.len() ==> #[trigger] shares@[j] == start[j],
            forall|j: int|
                0 <= j < i ==> #[trigger] shares@[j] == base[j] && shares@[j]
                    <= makers@[j].remaining_quantity.base(),
            allocated == sums::sum(part.take(i as int)),
        decreases makers@.len() - i,
    {
        proof {
            sums::lemma_sum_step(part, i as int);
            sums::lemma_sum_prefix(part, i + 1);
            assert(shares@[i as int] == start[i as int]);
            assert(weights@[i as int] <= u64::MAX);
            instrument::lemma_product_of_u64_fits(pool, weights@[i as int] as u64);
        }
        if shares[i] < makers[i].remaining_quantity.base() {
            proof {
                assert(active[i as int]);
                lemma_floored(pool as int, w[i as int], weight_total as int, lot as int);
            }
            let exact: u128 = (pool as u128) * weights[i] / weight_total;
            let share: u64 = ((exact / (lot as u128)) * (lot as u128)) as u64;
            shares.set(i, share);
            allocated = allocated + share;
        }
        i = i + 1;
    }
    proof {
        assert(part.take(makers@.len() as int) =~= part);
        assert(as_ints(shares@) =~= base);
    }
    allocated
}

impl MatchingAlgorithm for TimeProRataMatcher {
    open(crate) spec fn wf(&self) -> bool {
        &&& self.lot_size > 0
        &&& self.tick > 0
        &&& 0 < self.max_age_ticks <= u64::MAX
    }

    open(crate) spec fn spec_lot_size(&self) -> Option<u64> {
        Some(self.lot_size)
    }

    open(crate) spec fn allocation(&self, available: Qty, makers: Seq<Maker>, now: u128) -> Seq<
        Fill,
    > {
        fills_of(
            time_shares(
                available.base() as int,
                holdings(makers),
                self.spec_weights(makers, now as int),
                self.lot_size as int,
            ),
        )
    }

    proof fn allocation_conforms(&self, available: Qty, makers: Seq<Maker>, now: u128) {
        lemma_time_conforms(
            available,
            makers,
            self.spec_weights(makers, now as int),
            self.lot_size,
        );
    }

    fn allocate(&self, available: Qty, makers: &[Maker], now: u128) -> (r: Vec<Fill>) {
        let available: u64 = available.base();
        let lot: u64 = self.lot_size;
        let count: usize = makers.len();
        let total: u128 = total_of(makers);
        let ghost held = holdings(makers@);
        let ghost w = self.spec_weights(makers@, now as int);
        proof {
            lemma_time_conforms(qty_of(available as int), makers@, w, lot);
        }
        if available as u128 >= total {
            return take_everything(makers);
        }
        let weights: Vec<u128> = self.weights(makers, now);
        let mut shares: Vec<u64> = Vec::new();
        let mut i: usize = 0;
        while i < count
            invariant
                i <= count,
                shares@.len() == i,
                forall|j: int| 0 <= j < i ==> #[trigger] shares@[j] == 0,
            decreases count - i,
        {
            shares.push(0);
            i = i + 1;
        }
        let ghost a = available as int;
        let ghost end = settled(a, held, w, empty_handed(held));
        let mut pool: u128 = available as u128;
        let mut weight_total: u128 = 0;
        proof {
            assert forall|j: int|
                #![trigger held[j]]
                0 <= j < held.len() implies held[j] >= 0 && held[j] % lot as int == 0 by {
                assert(makers@[j].remaining_quantity.base() as int % lot as int == 0);
            }
            assert(wide_ints(weights@) =~= w);
            assert forall|j: int| 0 <= j < held.len() implies #[trigger] w[j] >= 1 by {
                assert(weights@[j] >= 1);
            }
            lemma_first_round(a, held, w, lot as int);
            assert(full(as_ints(shares@), held) =~= empty_handed(held));
        }
        loop
            invariant
                lot == self.lot_size,
                count == makers@.len(),
                a == available,
                held == holdings(makers@),
                wide_ints(weights@) == w,
                weights@.len() == count,
                forall|j: int| 0 <= j < weights@.len() ==> #[trigger] weights@[j] <= u64::MAX,
                shares@.len() == count,
                forall|j: int|
                    0 <= j < count ==> #[trigger] shares@[j] == 0 || shares@[j]
                        == makers@[j].remaining_quantity.base(),
                round_ok(a, held, w, full(as_ints(shares@), held), lot as int),
                pool == pool_after(a, held, full(as_ints(shares@), held)),
                end == settled(a, held, w, full(as_ints(shares@), held)),
            ensures
                end == full(as_ints(shares@), held),
                weight_total == sums::sum(masked(w, negated(end))),
                forall|j: int| 0 <= j < end.len() ==> !#[trigger] overruns(a, held, w, end, j),
            decreases running(full(as_ints(shares@), held)),
        {
            let ghost capped = full(as_ints(shares@), held);
            weight_total = running_weight(&weights, &shares, makers);
            proof {
                lemma_round(a, held, w, capped, lot as int);
            }
            let taken: u128 = cap_overruns(
                &mut shares,
                makers,
                &weights,
                available,
                pool,
                weight_total,
                lot,
            );
            proof {
                let newly = newly_capped(a, held, w, capped);
                let next = capped_next(a, held, w, capped);
                let part = masked(held, newly);
                assert forall|j: int| 0 <= j < part.len() implies part[j] >= 0 by {
                    assert(held[j] >= 0);
                }
                if taken > 0 {
                    assert(exists|j: int|
                        0 <= j < capped.len() && #[trigger] overruns(a, held, w, capped, j)) by {
                        if forall|j: int|
                            0 <= j < capped.len() ==> !#[trigger] overruns(a, held, w, capped, j) {
                            assert forall|j: int| 0 <= j < part.len() implies part[j] == 0 by {
                                assert(!overruns(a, held, w, capped, j));
                            }
                            sums::lemma_sum_zero(part);
                        }
                    }
                    lemma_running_drops(
                        capped,
                        next,
                        choose|j: int|
                            0 <= j < capped.len() && #[trigger] overruns(a, held, w, capped, j),
                    );
                } else {
                    assert forall|j: int| 0 <= j < capped.len() implies !#[trigger] overruns(
                        a,
                        held,
                        w,
                        capped,
                        j,
                    ) by {
                        sums::lemma_sum_bounds_element(part, j);
                        assert(!capped[j] ==> held[j] > 0);
                        assert(part[j] == (if newly[j] { held[j] } else { 0 }));
                    }
                    assert(next =~= capped);
                }
            }
            if taken == 0 {
                break;
            }
            pool = pool - taken;
        }
        proof {
            lemma_round_weight(a, held, w, end, lot as int);
            lemma_settled_split(a, held, w, end, lot as int);
        }
        let allocated: u64 = floor_running(
            &mut shares,
            makers,
            &weights,
            pool as u64,
            weight_total,
            lot,
        );
        let left: u64 = pool as u64 - allocated;
        proof {
            lemma_floors_sum(pool as int, held, w, negated(end), lot as int);
        }
        sweep(&mut shares, makers, lot, left);
        collect_fills(&shares)
    }

    fn lot_size(&self) -> (r: Option<u64>) {
        Some(self.lot_size)
    }
}

// ---------------------------------------------------------------- laws

/// What the fills hand to the maker at `k`: nothing where it is absent.
pub open spec fn allotted(fills: Seq<Fill>, k: int) -> int
    decreases fills.len(),
{
    if fills.len() == 0 {
        0
    } else if fills.last().order_index == k {
        fills.last().quantity.base() as int
    } else {
        allotted(fills.drop_last(), k)
    }
}

pub(crate) proof fn lemma_allotted(shares: Seq<int>, k: int)
    requires
        shares.len() <= usize::MAX,
        0 <= k < shares.len(),
        forall|i: int| 0 <= i < shares.len() ==> 0 <= #[trigger] shares[i] <= u64::MAX,
    ensures
        allotted(fills_of(shares), k) == shares[k],
    decreases shares.len(),
{
    let rest = shares.drop_last();
    assert forall|i: int| 0 <= i < rest.len() implies 0 <= #[trigger] rest[i] <= u64::MAX by {
        assert(rest[i] == shares[i]);
    }
    if shares.last() > 0 {
        assert(fills_of(shares).drop_last() =~= fills_of(rest));
    }
    if k < rest.len() {
        lemma_allotted(rest, k);
    } else {
        lemma_fills_of_shares(rest);
        lemma_allotted_absent(fills_of(rest), k);
    }
}

proof fn lemma_allotted_absent(fills: Seq<Fill>, k: int)
    requires
        forall|i: int| 0 <= i < fills.len() ==> (#[trigger] fills[i]).order_index < k,
    ensures
        allotted(fills, k) == 0,
    decreases fills.len(),
{
    if fills.len() > 0 {
        lemma_allotted_absent(fills.drop_last(), k);
    }
}

/// The policy decides who fills, never how much: any two policies take the same
/// total from a level.
pub proof fn policies_agree_on_the_total<A: MatchingAlgorithm, B: MatchingAlgorithm>(
    a: A,
    b: B,
    available: Qty,
    makers: Seq<Maker>,
    now: u128,
)
    requires
        a.wf(),
        b.wf(),
        makers.len() <= usize::MAX,
        on_grid(a.spec_lot_size(), available, makers),
        on_grid(b.spec_lot_size(), available, makers),
    ensures
        sums::sum(taken(a.allocation(available, makers, now))) == sums::sum(
            taken(b.allocation(available, makers, now)),
        ),
{
    a.allocation_conforms(available, makers, now);
    b.allocation_conforms(available, makers, now);
}

/// First in, first out: whoever is filled at all has everyone before it filled
/// completely.
pub proof fn fifo_serves_the_front_first(
    available: Qty,
    makers: Seq<Maker>,
    now: u128,
    i: int,
    j: int,
)
    requires
        makers.len() <= usize::MAX,
        0 <= i < j < makers.len(),
        allotted(FifoMatcher.allocation(available, makers, now), j) > 0,
    ensures
        allotted(FifoMatcher.allocation(available, makers, now), i)
            == makers[i].remaining_quantity.base(),
{
    let held = holdings(makers);
    let shares = fifo_shares(available.base() as int, held);
    assert forall|k: int| 0 <= k < shares.len() implies 0 <= #[trigger] shares[k] <= u64::MAX by {}
    lemma_allotted(shares, i);
    lemma_allotted(shares, j);
    sums::lemma_sum_step(held, i);
    sums::lemma_sum_prefix(held.take(j), i + 1);
    assert(held.take(j).take(i + 1) =~= held.take(i + 1));
}

/// Pro rata is proportional: where the taker does not take the whole level, a
/// maker gets its share rounded down to whole lots, or one lot more.
pub proof fn pro_rata_is_proportional(
    matcher: ProRataMatcher,
    available: Qty,
    makers: Seq<Maker>,
    now: u128,
    i: int,
)
    requires
        matcher.wf(),
        makers.len() <= usize::MAX,
        on_grid(matcher.spec_lot_size(), available, makers),
        available.base() < level_total(makers),
        0 <= i < makers.len(),
    ensures
        ({
            let lot = matcher.lot() as int;
            let exact = available.base() * makers[i].remaining_quantity.base() / level_total(makers);
            let got = allotted(matcher.allocation(available, makers, now), i);
            got == (exact / lot) * lot || got == (exact / lot) * lot + lot
        }),
{
    let held = holdings(makers);
    let lot = matcher.lot() as int;
    let a = available.base() as int;
    assert forall|k: int|
        #![trigger held[k]]
        0 <= k < held.len() implies held[k] >= 0 && held[k] % lot == 0 by {
        assert(makers[k].remaining_quantity.base() as int % lot == 0);
    }
    lemma_pro_rata_split(a, held, lot);
    lemma_apportioned(a, held, held, nonzero(held), lot);
    let shares = pro_rata_shares(a, held, lot);
    assert forall|k: int| 0 <= k < shares.len() implies 0 <= #[trigger] shares[k] <= u64::MAX by {
        assert(shares[k] <= held[k]);
    }
    lemma_allotted(shares, i);
    if held[i] == 0 {
        assert(a * 0 == 0);
        vstd::arithmetic::div_mod::lemma_div_of0(sums::sum(held));
        vstd::arithmetic::div_mod::lemma_div_of0(lot);
        assert(0 * lot == 0) by (nonlinear_arith);
    }
}

pub(crate) proof fn lemma_time_shares_valid(available: Qty, makers: Seq<Maker>, weights: Seq<int>, lot: u64)
    requires
        on_grid(Some(lot), available, makers),
        weights.len() == makers.len(),
        forall|i: int| 0 <= i < weights.len() ==> #[trigger] weights[i] >= 1,
    ensures
        ({
            let shares = time_shares(
                available.base() as int,
                holdings(makers),
                weights,
                lot as int,
            );
            &&& shares.len() == makers.len()
            &&& forall|i: int|
                0 <= i < shares.len() ==> 0 <= #[trigger] shares[i] <= holdings(makers)[i]
        }),
{
    let held = holdings(makers);
    let a = available.base() as int;
    assert forall|i: int|
        #![trigger held[i]]
        0 <= i < held.len() implies held[i] >= 0 && held[i] % lot as int == 0 by {
        assert(makers[i].remaining_quantity.base() as int % lot as int == 0);
    }
    if a < sums::sum(held) {
        lemma_first_round(a, held, weights, lot as int);
        lemma_settled(a, held, weights, empty_handed(held), lot as int);
        let end = settled(a, held, weights, empty_handed(held));
        lemma_settled_split(a, held, weights, end, lot as int);
        lemma_apportioned(pool_after(a, held, end), held, weights, negated(end), lot as int);
    }
}

/// Where all makers arrived together, time-weighted pro rata is pro rata, crumb
/// for crumb. The weights have to fit 64 bits unscaled: scaling gives up low
/// bits.
pub proof fn equal_arrivals_make_it_pro_rata(
    timed: TimeProRataMatcher,
    plain: ProRataMatcher,
    available: Qty,
    makers: Seq<Maker>,
    now: u128,
)
    requires
        timed.wf(),
        plain.wf(),
        timed.lot() == plain.lot(),
        makers.len() <= usize::MAX,
        on_grid(timed.spec_lot_size(), available, makers),
        forall|i: int, j: int|
            0 <= i < makers.len() && 0 <= j < makers.len() ==> (#[trigger] makers[i]).arrival == (
            #[trigger] makers[j]).arrival,
        peak(
            raw_weights(
                makers,
                now as int,
                timed.spec_tick() as int,
                timed.spec_max_age() as int,
            ),
        ) <= u64::MAX,
    ensures
        timed.allocation(available, makers, now) == plain.allocation(available, makers, now),
{
    let held = holdings(makers);
    let lot = timed.lot() as int;
    let a = available.base() as int;
    if a < sums::sum(held) {
        let tick = timed.spec_tick() as int;
        let cap = timed.spec_max_age() as int;
        let raw = raw_weights(makers, now as int, tick, cap);
        let weights = timed.spec_weights(makers, now as int);
        let k = age(makers[0].arrival as int, now as int, tick, cap);
        assert(makers.len() > 0) by {
            if makers.len() == 0 {
                assert(held =~= Seq::<int>::empty());
            }
        }
        assert(k >= 1);
        assert forall|i: int| 0 <= i < held.len() implies held[i] >= 0 && #[trigger] weights[i]
            >= 1 && (held[i] > 0 ==> weights[i] == k * held[i]) by {
            assert(makers[i].arrival == makers[0].arrival);
            assert(raw[i] == held[i] * k);
            assert(held[i] * k == k * held[i]) by (nonlinear_arith);
            assert(held[i] > 0 ==> k * held[i] >= 1) by (nonlinear_arith)
                requires
                    k >= 1,
            ;
            assert(raw[i] / 1 == raw[i]);
        }
        assert forall|i: int|
            #![trigger held[i]]
            0 <= i < held.len() implies held[i] >= 0 && held[i] % lot == 0 by {
            assert(makers[i].remaining_quantity.base() as int % lot == 0);
        }
        let start = empty_handed(held);
        let active = nonzero(held);
        lemma_first_round(a, held, weights, lot);
        lemma_pro_rata_split(a, held, lot);
        assert(negated(start) =~= active);
        let total = sums::sum(held);
        sums::lemma_sum_scale(masked(held, active), k, masked(weights, active));
        assert(sums::sum(masked(weights, active)) == k * total);
        assert forall|i: int| 0 <= i < held.len() && active[i] implies a * weights[i] / (k * total)
            == a * held[i] / total by {
            assert(a * (k * held[i]) == k * (a * held[i])) by (nonlinear_arith);
            assert(weights[i] == k * held[i]);
            vstd::arithmetic::mul::lemma_mul_nonnegative(a, held[i]);
            vstd::arithmetic::div_mod::lemma_truncate_middle(a * held[i], k, total);
            vstd::arithmetic::div_mod::lemma_div_multiples_vanish_quotient(k, a * held[i], total);
        }
        assert forall|i: int| 0 <= i < start.len() implies !#[trigger] overruns(
            a,
            held,
            weights,
            start,
            i,
        ) by {
            if !start[i] {
                assert(active[i]);
                lemma_share_below(a, held[i], total);
            }
        }
        assert(settled(a, held, weights, start) == start);
        assert(floors(a, held, weights, active, lot) =~= floors(a, held, held, active, lot));
    }
}

proof fn lemma_settled_keeps_order(
    available: int,
    held: Seq<int>,
    weights: Seq<int>,
    capped: Seq<bool>,
    lot: int,
    i: int,
    j: int,
)
    requires
        round_ok(available, held, weights, capped, lot),
        0 <= i < held.len(),
        0 <= j < held.len(),
        held[i] == held[j],
        weights[i] >= weights[j],
        capped[j] ==> capped[i],
    ensures
        settled(available, held, weights, capped)[j] ==> settled(
            available,
            held,
            weights,
            capped,
        )[i],
    decreases running(capped),
{
    if exists|k: int|
        0 <= k < capped.len() && #[trigger] overruns(available, held, weights, capped, k) {
        let next = capped_next(available, held, weights, capped);
        lemma_running_drops(
            capped,
            next,
            choose|k: int|
                0 <= k < capped.len() && #[trigger] overruns(available, held, weights, capped, k),
        );
        lemma_round(available, held, weights, capped, lot);
        lemma_round_weight(available, held, weights, capped, lot);
        let pool = pool_after(available, held, capped);
        let total = sums::sum(masked(weights, negated(capped)));
        lemma_share_grows(pool, weights[j], weights[i], total);
        lemma_settled_keeps_order(available, held, weights, next, lot, i, j);
    }
}

proof fn lemma_share_grows(pool: int, low: int, high: int, total: int)
    requires
        pool >= 0,
        low <= high,
        total > 0,
    ensures
        pool * low / total <= pool * high / total,
{
    assert(pool * low <= pool * high) by (nonlinear_arith)
        requires
            pool >= 0,
            low <= high,
    ;
    vstd::arithmetic::div_mod::lemma_div_is_ordered(pool * low, pool * high, total);
}

/// At equal size, resting longer never pays less: a maker that is ahead in the
/// queue and arrived no later gets at least as much.
pub proof fn resting_longer_never_pays_less(
    matcher: TimeProRataMatcher,
    available: Qty,
    makers: Seq<Maker>,
    now: u128,
    i: int,
    j: int,
)
    requires
        matcher.wf(),
        makers.len() <= usize::MAX,
        on_grid(matcher.spec_lot_size(), available, makers),
        0 <= i < j < makers.len(),
        makers[i].remaining_quantity == makers[j].remaining_quantity,
        makers[i].arrival <= makers[j].arrival,
    ensures
        allotted(matcher.allocation(available, makers, now), i) >= allotted(
            matcher.allocation(available, makers, now),
            j,
        ),
{
    let held = holdings(makers);
    let lot = matcher.lot() as int;
    let a = available.base() as int;
    let tick = matcher.spec_tick() as int;
    let cap = matcher.spec_max_age() as int;
    let raw = raw_weights(makers, now as int, tick, cap);
    let weights = matcher.spec_weights(makers, now as int);
    let shares = time_shares(a, held, weights, lot);
    assert forall|k: int| 0 <= k < weights.len() implies #[trigger] weights[k] >= 1 by {}
    lemma_time_shares_valid(available, makers, weights, matcher.lot());
    assert forall|k: int| 0 <= k < shares.len() implies 0 <= #[trigger] shares[k] <= u64::MAX by {
        assert(shares[k] <= held[k]);
    }
    lemma_allotted(shares, i);
    lemma_allotted(shares, j);
    if a < sums::sum(held) {
        // the older maker weighs at least as much
        let older = age(makers[i].arrival as int, now as int, tick, cap);
        let newer = age(makers[j].arrival as int, now as int, tick, cap);
        assert(newer <= older) by {
            vstd::arithmetic::div_mod::lemma_div_is_ordered(
                max(0, now - makers[j].arrival),
                max(0, now - makers[i].arrival),
                tick,
            );
        }
        assert(raw[j] <= raw[i]) by {
            assert(held[j] * newer <= held[j] * older) by (nonlinear_arith)
                requires
                    newer <= older,
                    held[j] >= 0,
            ;
        }
        lemma_scale_divisor(peak(raw));
        vstd::arithmetic::div_mod::lemma_div_is_ordered(
            raw[j],
            raw[i],
            scale_divisor(peak(raw)),
        );
        assert(weights[j] <= weights[i]);
        assert forall|k: int|
            #![trigger held[k]]
            0 <= k < held.len() implies held[k] >= 0 && held[k] % lot == 0 by {
            assert(makers[k].remaining_quantity.base() as int % lot == 0);
        }
        let start = empty_handed(held);
        lemma_first_round(a, held, weights, lot);
        lemma_settled(a, held, weights, start, lot);
        lemma_settled_keeps_order(a, held, weights, start, lot, i, j);
        let end = settled(a, held, weights, start);
        lemma_settled_split(a, held, weights, end, lot);
        let active = negated(end);
        let pool = pool_after(a, held, end);
        let total = sums::sum(masked(weights, active));
        let base = floors(pool, held, weights, active, lot);
        let flags = room(base, held, lot);
        if end[i] {
            assert(base[i] == held[i]);
        } else {
            lemma_share_grows(pool, weights[j], weights[i], total);
            lemma_floored(pool, weights[i], total, lot);
            lemma_floored(pool, weights[j], total, lot);
            let x = pool * weights[i] / total;
            let y = pool * weights[j] / total;
            vstd::arithmetic::div_mod::lemma_div_is_ordered(y, x, lot);
            assert((y / lot) * lot <= (x / lot) * lot) by (nonlinear_arith)
                requires
                    y / lot <= x / lot,
                    lot > 0,
            ;
            assert(base[j] <= base[i]);
            if base[j] < base[i] {
                sums::lemma_multiples_gap(base[j], base[i], lot);
            } else {
                sums::lemma_sum_prefix(flags.take(j), i);
                assert(flags.take(j).take(i) =~= flags.take(i));
                let p = sums::sum(flags.take(i));
                let q = sums::sum(flags.take(j));
                assert(lot * p <= lot * q) by (nonlinear_arith)
                    requires
                        p <= q,
                        lot > 0,
                ;
            }
        }
    }
}

} // verus!
