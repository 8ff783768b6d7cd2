//! The book: an ordered index of price levels plus cached best-bid and
//! best-ask cursors, routing each incoming intent to an immediate
//! cross-the-spread sweep or to a resting placement.

use vstd::prelude::*;
use crate::currency::Currency;
use crate::errors::BookError;
use crate::ledger::Ledger;
use crate::order::{Order, OrderDirection, OrderType};
use crate::tick::{drain_orders, drain_leftover, drain_credit, sum_quantities, Tick};
use crate::tick::{lemma_drain_shape, lemma_drain_credit_nonneg, lemma_sum_nonneg};

verus! {

/// How many levels at the front of `ticks` have a price strictly below
/// `target`: in a sorted index, the position where the level priced `target`
/// sits or would sit.
pub open spec fn spec_lower_bound(ticks: Seq<Tick>, target: u64) -> int
    decreases ticks.len(),
{
    if ticks.len() == 0 {
        0
    } else if ticks[0].tick_id < target {
        1 + spec_lower_bound(ticks.drop_first(), target)
    } else {
        0
    }
}

/// Basic bounds of `spec_lower_bound`: it points past every cheaper level
/// and at the first level priced at or above `target`.
pub proof fn lemma_lower_bound(ticks: Seq<Tick>, target: u64)
    ensures
        0 <= spec_lower_bound(ticks, target) <= ticks.len(),
        forall|j: int|
            0 <= j < spec_lower_bound(ticks, target) ==> (#[trigger] ticks[j]).tick_id < target,
        spec_lower_bound(ticks, target) < ticks.len() ==> ticks[spec_lower_bound(
            ticks,
            target,
        )].tick_id >= target,
    decreases ticks.len(),
{
    if ticks.len() > 0 && ticks[0].tick_id < target {
        lemma_lower_bound(ticks.drop_first(), target);
        assert forall|j: int|
            0 <= j < spec_lower_bound(ticks, target) implies (#[trigger] ticks[j]).tick_id
            < target by {
            if j > 0 {
                assert(ticks.drop_first()[j - 1] == ticks[j]);
            }
        }
    }
}

/// How many units an upward sweep (an aggressive buyer walking the ask side
/// from the best price outward) drains from `levels`, with budget `k` and
/// levels at or beyond `end` out of bounds.
pub open spec fn sweep_up_filled(levels: Seq<Tick>, k: int, end: u64) -> int
    decreases levels.len(),
{
    if k <= 0 || levels.len() == 0 || levels[0].tick_id >= end {
        0
    } else {
        let tot = sum_quantities(levels[0].orders@);
        let f = if k <= tot {
            k
        } else {
            tot
        };
        f + sweep_up_filled(levels.drop_first(), k - f, end)
    }
}

/// What those drained units are worth: each level's fill is settled at that
/// level's own price.
pub open spec fn sweep_up_value(levels: Seq<Tick>, k: int, end: u64) -> int
    decreases levels.len(),
{
    if k <= 0 || levels.len() == 0 || levels[0].tick_id >= end {
        0
    } else {
        let tot = sum_quantities(levels[0].orders@);
        let f = if k <= tot {
            k
        } else {
            tot
        };
        f * levels[0].tick_id + sweep_up_value(levels.drop_first(), k - f, end)
    }
}

/// How many levels the sweep drains completely (they leave the index).
pub open spec fn sweep_up_removed(levels: Seq<Tick>, k: int, end: u64) -> int
    decreases levels.len(),
{
    if k <= 0 || levels.len() == 0 || levels[0].tick_id >= end {
        0
    } else {
        let tot = sum_quantities(levels[0].orders@);
        if k >= tot {
            1 + sweep_up_removed(levels.drop_first(), k - tot, end)
        } else {
            0
        }
    }
}

/// The budget left for the first level the sweep reaches but cannot drain
/// completely (zero when the sweep stops at a bound, runs out of levels, or
/// exhausts its budget exactly).
pub open spec fn sweep_up_partial(levels: Seq<Tick>, k: int, end: u64) -> int
    decreases levels.len(),
{
    if k <= 0 || levels.len() == 0 || levels[0].tick_id >= end {
        0
    } else {
        let tot = sum_quantities(levels[0].orders@);
        if k >= tot {
            sweep_up_partial(levels.drop_first(), k - tot, end)
        } else {
            k
        }
    }
}

/// What the sweep credits to account `id` in currency `c`: every drained
/// resting order settles its consumed portion, at its own price, into its
/// owner's entry.
pub open spec fn sweep_up_credit(levels: Seq<Tick>, k: int, end: u64, id: u64, c: Currency) -> int
    decreases levels.len(),
{
    if k <= 0 || levels.len() == 0 || levels[0].tick_id >= end {
        0
    } else {
        let tot = sum_quantities(levels[0].orders@);
        drain_credit(levels[0].orders@, k, id, c) + (if k >= tot {
            sweep_up_credit(levels.drop_first(), k - tot, end, id, c)
        } else {
            0
        })
    }
}

/// Where the best-ask cursor ends up: on the cheapest level the sweep left
/// standing — the price index holds a level only while liquidity rests there,
/// so the cursor again names the best resting price on its side — or at the
/// no-liquidity sentinel when the sweep emptied every level it could reach.
/// A sweep with no budget visits nothing and moves nothing.
pub open spec fn sweep_up_cursor(levels: Seq<Tick>, k: int, end: u64, cur: Option<u64>) -> Option<
    u64,
> {
    if k <= 0 {
        cur
    } else {
        let m = sweep_up_removed(levels, k, end);
        if m < levels.len() {
            Some(levels[m].tick_id)
        } else {
            None
        }
    }
}

/// How one drained level relates to what it was: same price, the queue
/// drained by `k` in time priority, the aggregate counter reduced by what
/// left.
pub open spec fn is_drained_level(post: Tick, pre: Tick, k: int) -> bool {
    &&& post.tick_id == pre.tick_id
    &&& post.orders@ == drain_orders(pre.orders@, k)
    &&& post.total_orders == pre.total_orders - (k - drain_leftover(pre.orders@, k))
}

/// How an upward sweep with budget `k` reshapes the price index: everything
/// below position `s0` is untouched, the `m` levels the sweep drained
/// completely are gone, the first surviving visited level carries the
/// partial drain, and everything beyond it is untouched.
pub open spec fn sweep_up_shape(pre: Seq<Tick>, post: Seq<Tick>, s0: int, k: int, end: u64) -> bool {
    let m = sweep_up_removed(pre.subrange(s0, pre.len() as int), k, end);
    let part = sweep_up_partial(pre.subrange(s0, pre.len() as int), k, end);
    &&& post.len() == pre.len() - m
    &&& (forall|i: int| 0 <= i < s0 ==> post[i] == pre[i])
    &&& (forall|i: int| s0 < i < post.len() ==> post[i] == pre[i + m])
    &&& (s0 < post.len() ==> is_drained_level(post[s0], pre[s0 + m], part))
    &&& (s0 < post.len() && part == 0 ==> post[s0] == pre[s0 + m])
}

/// A sweep prunes between zero and all of the levels it may visit.
pub proof fn lemma_sweep_up_removed_bounds(levels: Seq<Tick>, k: int, end: u64)
    ensures
        0 <= sweep_up_removed(levels, k, end) <= levels.len(),
    decreases levels.len(),
{
    if !(k <= 0 || levels.len() == 0 || levels[0].tick_id >= end) {
        let tot = sum_quantities(levels[0].orders@);
        if k >= tot {
            lemma_sweep_up_removed_bounds(levels.drop_first(), k - tot, end);
        }
    }
}

/// The partial drain a sweep leaves on its stopping level never exceeds the
/// budget.
pub proof fn lemma_sweep_up_partial_bounds(levels: Seq<Tick>, k: int, end: u64)
    requires
        k >= 0,
    ensures
        0 <= sweep_up_partial(levels, k, end) <= k,
    decreases levels.len(),
{
    if !(k <= 0 || levels.len() == 0 || levels[0].tick_id >= end) {
        let tot = sum_quantities(levels[0].orders@);
        lemma_sum_nonneg(levels[0].orders@);
        if k >= tot {
            lemma_sweep_up_partial_bounds(levels.drop_first(), k - tot, end);
        }
    }
}

/// A sweep fills a non-negative amount, and never more than its budget.
pub proof fn lemma_sweep_up_filled_bounds(levels: Seq<Tick>, k: int, end: u64)
    requires
        k >= 0,
    ensures
        0 <= sweep_up_filled(levels, k, end) <= k,
    decreases levels.len(),
{
    if !(k <= 0 || levels.len() == 0 || levels[0].tick_id >= end) {
        let tot = sum_quantities(levels[0].orders@);
        lemma_sum_nonneg(levels[0].orders@);
        let f = if k <= tot {
            k
        } else {
            tot
        };
        lemma_sweep_up_filled_bounds(levels.drop_first(), k - f, end);
    }
}

/// What a sweep is worth is never negative.
pub proof fn lemma_sweep_up_value_nonneg(levels: Seq<Tick>, k: int, end: u64)
    requires
        k >= 0,
    ensures
        sweep_up_value(levels, k, end) >= 0,
    decreases levels.len(),
{
    if !(k <= 0 || levels.len() == 0 || levels[0].tick_id >= end) {
        let tot = sum_quantities(levels[0].orders@);
        lemma_sum_nonneg(levels[0].orders@);
        let f = if k <= tot {
            k
        } else {
            tot
        };
        vstd::arithmetic::mul::lemma_mul_nonnegative(f, levels[0].tick_id as int);
        lemma_sweep_up_value_nonneg(levels.drop_first(), k - f, end);
    }
}

/// A sweep takes nothing away from any resting owner: every credit is
/// non-negative.
pub proof fn lemma_sweep_up_credit_nonneg(levels: Seq<Tick>, k: int, end: u64, id: u64, c: Currency)
    requires
        k >= 0,
    ensures
        sweep_up_credit(levels, k, end, id, c) >= 0,
    decreases levels.len(),
{
    if !(k <= 0 || levels.len() == 0 || levels[0].tick_id >= end) {
        let tot = sum_quantities(levels[0].orders@);
        lemma_sum_nonneg(levels[0].orders@);
        lemma_drain_credit_nonneg(levels[0].orders@, k, id, c);
        if k >= tot {
            lemma_sweep_up_credit_nonneg(levels.drop_first(), k - tot, end, id, c);
        }
    }
}

/// How many levels at the front of `ticks` have a price at or below
/// `target`: in a sorted index, one past the position of the most expensive
/// such level.
pub open spec fn spec_upper_bound(ticks: Seq<Tick>, target: u64) -> int
    decreases ticks.len(),
{
    if ticks.len() == 0 {
        0
    } else if ticks[0].tick_id <= target {
        1 + spec_upper_bound(ticks.drop_first(), target)
    } else {
        0
    }
}

/// Basic bounds of `spec_upper_bound`: it points past every level priced at
/// or below `target` and at the first level priced above it.
pub proof fn lemma_upper_bound(ticks: Seq<Tick>, target: u64)
    ensures
        0 <= spec_upper_bound(ticks, target) <= ticks.len(),
        forall|j: int|
            0 <= j < spec_upper_bound(ticks, target) ==> (#[trigger] ticks[j]).tick_id <= target,
        spec_upper_bound(ticks, target) < ticks.len() ==> ticks[spec_upper_bound(
            ticks,
            target,
        )].tick_id > target,
    decreases ticks.len(),
{
    if ticks.len() > 0 && ticks[0].tick_id <= target {
        lemma_upper_bound(ticks.drop_first(), target);
        assert forall|j: int|
            0 <= j < spec_upper_bound(ticks, target) implies (#[trigger] ticks[j]).tick_id
            <= target by {
            if j > 0 {
                assert(ticks.drop_first()[j - 1] == ticks[j]);
            }
        }
    }
}

/// How many units a downward sweep (an aggressive seller walking the bid
/// side from the best price outward) drains from `levels`, with budget `k`
/// and levels at or below `end` out of bounds. The walk runs from the last
/// level of `levels` toward the first.
pub open spec fn sweep_down_filled(levels: Seq<Tick>, k: int, end: u64) -> int
    decreases levels.len(),
{
    if k <= 0 || levels.len() == 0 || levels.last().tick_id <= end {
        0
    } else {
        let tot = sum_quantities(levels.last().orders@);
        let f = if k <= tot {
            k
        } else {
            tot
        };
        f + sweep_down_filled(levels.drop_last(), k - f, end)
    }
}

/// What those drained units are worth: each level's fill is settled at that
/// level's own price.
pub open spec fn sweep_down_value(levels: Seq<Tick>, k: int, end: u64) -> int
    decreases levels.len(),
{
    if k <= 0 || levels.len() == 0 || levels.last().tick_id <= end {
        0
    } else {
        let tot = sum_quantities(levels.last().orders@);
        let f = if k <= tot {
            k
        } else {
            tot
        };
        f * levels.last().tick_id + sweep_down_value(levels.drop_last(), k - f, end)
    }
}

/// How many levels the downward sweep drains completely.
pub open spec fn sweep_down_removed(levels: Seq<Tick>, k: int, end: u64) -> int
    decreases levels.len(),
{
    if k <= 0 || levels.len() == 0 || levels.last().tick_id <= end {
        0
    } else {
        let tot = sum_quantities(levels.last().orders@);
        if k >= tot {
            1 + sweep_down_removed(levels.drop_last(), k - tot, end)
        } else {
            0
        }
    }
}

/// The budget left for the first level the downward sweep reaches but cannot
/// drain completely.
pub open spec fn sweep_down_partial(levels: Seq<Tick>, k: int, end: u64) -> int
    decreases levels.len(),
{
    if k <= 0 || levels.len() == 0 || levels.last().tick_id <= end {
        0
    } else {
        let tot = sum_quantities(levels.last().orders@);
        if k >= tot {
            sweep_down_partial(levels.drop_last(), k - tot, end)
        } else {
            k
        }
    }
}

/// What the downward sweep credits to account `id` in currency `c`.
pub open spec fn sweep_down_credit(levels: Seq<Tick>, k: int, end: u64, id: u64, c: Currency) -> int
    decreases levels.len(),
{
    if k <= 0 || levels.len() == 0 || levels.last().tick_id <= end {
        0
    } else {
        let tot = sum_quantities(levels.last().orders@);
        drain_credit(levels.last().orders@, k, id, c) + (if k >= tot {
            sweep_down_credit(levels.drop_last(), k - tot, end, id, c)
        } else {
            0
        })
    }
}

/// Where the best-bid cursor ends up after a downward sweep: on the most
/// expensive level the sweep left standing, or at the no-liquidity sentinel
/// when it emptied every level it could reach. A sweep with no budget visits
/// nothing and moves nothing.
pub open spec fn sweep_down_cursor(levels: Seq<Tick>, k: int, end: u64, cur: Option<u64>) -> Option<
    u64,
> {
    if k <= 0 {
        cur
    } else {
        let m = sweep_down_removed(levels, k, end);
        if m < levels.len() {
            Some(levels[levels.len() - 1 - m].tick_id)
        } else {
            None
        }
    }
}

/// How a downward sweep with budget `k` reshapes the price index: everything
/// at position `s1` or beyond is untouched (shifted left by the `m` pruned
/// levels), the cheapest surviving visited level carries the partial drain,
/// and everything below it is untouched.
pub open spec fn sweep_down_shape(
    pre: Seq<Tick>,
    post: Seq<Tick>,
    s1: int,
    k: int,
    end: u64,
) -> bool {
    let m = sweep_down_removed(pre.subrange(0, s1), k, end);
    let part = sweep_down_partial(pre.subrange(0, s1), k, end);
    &&& post.len() == pre.len() - m
    &&& (forall|i: int| 0 <= i < s1 - m - 1 ==> post[i] == pre[i])
    &&& (forall|i: int| s1 - m <= i < post.len() ==> post[i] == pre[i + m])
    &&& (0 <= s1 - m - 1 ==> is_drained_level(post[s1 - m - 1], pre[s1 - m - 1], part))
    &&& (0 <= s1 - m - 1 && part == 0 ==> post[s1 - m - 1] == pre[s1 - m - 1])
}

/// A downward sweep prunes between zero and all of the levels it may visit.
pub proof fn lemma_sweep_down_removed_bounds(levels: Seq<Tick>, k: int, end: u64)
    ensures
        0 <= sweep_down_removed(levels, k, end) <= levels.len(),
    decreases levels.len(),
{
    if !(k <= 0 || levels.len() == 0 || levels.last().tick_id <= end) {
        let tot = sum_quantities(levels.last().orders@);
        if k >= tot {
            lemma_sweep_down_removed_bounds(levels.drop_last(), k - tot, end);
        }
    }
}

/// The partial drain a downward sweep leaves on its stopping level never
/// exceeds the budget.
pub proof fn lemma_sweep_down_partial_bounds(levels: Seq<Tick>, k: int, end: u64)
    requires
        k >= 0,
    ensures
        0 <= sweep_down_partial(levels, k, end) <= k,
    decreases levels.len(),
{
    if !(k <= 0 || levels.len() == 0 || levels.last().tick_id <= end) {
        let tot = sum_quantities(levels.last().orders@);
        lemma_sum_nonneg(levels.last().orders@);
        if k >= tot {
            lemma_sweep_down_partial_bounds(levels.drop_last(), k - tot, end);
        }
    }
}

/// A downward sweep fills a non-negative amount, never more than its budget.
pub proof fn lemma_sweep_down_filled_bounds(levels: Seq<Tick>, k: int, end: u64)
    requires
        k >= 0,
    ensures
        0 <= sweep_down_filled(levels, k, end) <= k,
    decreases levels.len(),
{
    if !(k <= 0 || levels.len() == 0 || levels.last().tick_id <= end) {
        let tot = sum_quantities(levels.last().orders@);
        lemma_sum_nonneg(levels.last().orders@);
        let f = if k <= tot {
            k
        } else {
            tot
        };
        lemma_sweep_down_filled_bounds(levels.drop_last(), k - f, end);
    }
}

/// What a downward sweep is worth is never negative.
pub proof fn lemma_sweep_down_value_nonneg(levels: Seq<Tick>, k: int, end: u64)
    requires
        k >= 0,
    ensures
        sweep_down_value(levels, k, end) >= 0,
    decreases levels.len(),
{
    if !(k <= 0 || levels.len() == 0 || levels.last().tick_id <= end) {
        let tot = sum_quantities(levels.last().orders@);
        lemma_sum_nonneg(levels.last().orders@);
        let f = if k <= tot {
            k
        } else {
            tot
        };
        vstd::arithmetic::mul::lemma_mul_nonnegative(f, levels.last().tick_id as int);
        lemma_sweep_down_value_nonneg(levels.drop_last(), k - f, end);
    }
}

/// A downward sweep takes nothing away from any resting owner.
pub proof fn lemma_sweep_down_credit_nonneg(
    levels: Seq<Tick>,
    k: int,
    end: u64,
    id: u64,
    c: Currency,
)
    requires
        k >= 0,
    ensures
        sweep_down_credit(levels, k, end, id, c) >= 0,
    decreases levels.len(),
{
    if !(k <= 0 || levels.len() == 0 || levels.last().tick_id <= end) {
        let tot = sum_quantities(levels.last().orders@);
        lemma_sum_nonneg(levels.last().orders@);
        lemma_drain_credit_nonneg(levels.last().orders@, k, id, c);
        if k >= tot {
            lemma_sweep_down_credit_nonneg(levels.drop_last(), k - tot, end, id, c);
        }
    }
}

/// What a sweep that fills `filled` units worth `value` credits to the
/// aggressor: a buyer receives the units, a seller their worth.
pub open spec fn aggr_credit_amount(order: Order, filled: int, value: int) -> int {
    match order.order_direction {
        OrderDirection::Bid => filled,
        OrderDirection::Ask => value,
    }
}

/// What that sweep costs the aggressor: a buyer pays the worth, a seller
/// hands over the units.
pub open spec fn aggr_debit_amount(order: Order, filled: int, value: int) -> int {
    match order.order_direction {
        OrderDirection::Bid => value,
        OrderDirection::Ask => filled,
    }
}

/// A sweep never raises any level's aggregate counter: whatever headroom the
/// levels priced `t` had before an upward sweep, they keep.
pub proof fn lemma_sweep_up_shape_capacity(
    pre: Seq<Tick>,
    post: Seq<Tick>,
    s0: int,
    k: int,
    end: u64,
    q: u64,
    t: u64,
)
    requires
        sweep_up_shape(pre, post, s0, k, end),
        0 <= s0 <= pre.len(),
        k >= 0,
        forall|i: int| 0 <= i < pre.len() ==> (#[trigger] pre[i]).level_wf(),
        forall|i: int|
            0 <= i < pre.len() && (#[trigger] pre[i]).tick_id == t ==> pre[i].total_orders + q
                <= u64::MAX,
    ensures
        forall|i: int|
            0 <= i < post.len() && (#[trigger] post[i]).tick_id == t ==> post[i].total_orders + q
                <= u64::MAX,
{
    let suffix = pre.subrange(s0, pre.len() as int);
    let m = sweep_up_removed(suffix, k, end);
    let part = sweep_up_partial(suffix, k, end);
    lemma_sweep_up_removed_bounds(suffix, k, end);
    lemma_sweep_up_partial_bounds(suffix, k, end);
    assert forall|i: int|
        0 <= i < post.len() && (#[trigger] post[i]).tick_id == t implies post[i].total_orders + q
        <= u64::MAX by {
        if i < s0 {
            assert(pre[i].tick_id == t && pre[i].total_orders + q <= u64::MAX);
        } else if i == s0 {
            assert(pre[s0 + m].level_wf());
            lemma_drain_shape(pre[s0 + m].orders@, part);
            assert(pre[s0 + m].tick_id == t && pre[s0 + m].total_orders + q <= u64::MAX);
        } else {
            assert(pre[i + m].tick_id == t && pre[i + m].total_orders + q <= u64::MAX);
        }
    }
}

/// A downward sweep never raises any level's aggregate counter either.
pub proof fn lemma_sweep_down_shape_capacity(
    pre: Seq<Tick>,
    post: Seq<Tick>,
    s1: int,
    k: int,
    end: u64,
    q: u64,
    t: u64,
)
    requires
        sweep_down_shape(pre, post, s1, k, end),
        0 <= s1 <= pre.len(),
        k >= 0,
        forall|i: int| 0 <= i < pre.len() ==> (#[trigger] pre[i]).level_wf(),
        forall|i: int|
            0 <= i < pre.len() && (#[trigger] pre[i]).tick_id == t ==> pre[i].total_orders + q
                <= u64::MAX,
    ensures
        forall|i: int|
            0 <= i < post.len() && (#[trigger] post[i]).tick_id == t ==> post[i].total_orders + q
                <= u64::MAX,
{
    let prefix = pre.subrange(0, s1);
    let m = sweep_down_removed(prefix, k, end);
    let part = sweep_down_partial(prefix, k, end);
    lemma_sweep_down_removed_bounds(prefix, k, end);
    lemma_sweep_down_partial_bounds(prefix, k, end);
    assert forall|i: int|
        0 <= i < post.len() && (#[trigger] post[i]).tick_id == t implies post[i].total_orders + q
        <= u64::MAX by {
        if i < s1 - m - 1 {
            assert(pre[i].tick_id == t && pre[i].total_orders + q <= u64::MAX);
        } else if i == s1 - m - 1 {
            assert(pre[s1 - m - 1].level_wf());
            lemma_drain_shape(pre[s1 - m - 1].orders@, part);
            assert(pre[s1 - m - 1].tick_id == t && pre[s1 - m - 1].total_orders + q <= u64::MAX);
        } else {
            assert(pre[i + m].tick_id == t && pre[i + m].total_orders + q <= u64::MAX);
        }
    }
}

/// Everything `run_market_bid` promises of the states around it: with no ask
/// liquidity the budget comes straight back; on `InsufficientFunds` nothing
/// has changed; otherwise the ask side below `end` is swept by budget `k`,
/// every resting owner is settled at their own price, and the aggressor pays
/// and receives the sweep's worth and fill according to its direction.
pub open spec fn market_bid_post(
    pre_b: Orderbook,
    pre_l: Ledger,
    post_b: Orderbook,
    post_l: Ledger,
    order: Order,
    end: u64,
    k: u64,
    r: Result<u64, BookError>,
) -> bool {
    &&& post_b.next_bid_tick == pre_b.next_bid_tick
    &&& post_b.book_id == pre_b.book_id
    &&& post_b.quote_asset == pre_b.quote_asset
    &&& post_b.base_asset == pre_b.base_asset
    &&& post_b.cancellation_map == pre_b.cancellation_map
    &&& post_l.count() == pre_l.count()
    &&& (pre_b.next_ask_tick is None ==> r == Ok::<u64, BookError>(k) && post_b == pre_b && post_l
        == pre_l)
    &&& (r is Err ==> r == Err::<u64, BookError>(BookError::InsufficientFunds) && post_b == pre_b
        && post_l == pre_l)
    &&& (pre_b.next_ask_tick matches Some(cur) ==> {
        let s0 = spec_lower_bound(pre_b.ticks@, cur);
        let suffix = pre_b.suffix_from(cur);
        let ff = sweep_up_filled(suffix, k as int, end);
        let vv = sweep_up_value(suffix, k as int, end);
        &&& (r is Err <==> pre_l.bal(order.owner, order.debit_currency()) < aggr_debit_amount(
            order,
            ff,
            vv,
        ))
        &&& (r is Ok ==> {
            &&& r == Ok::<u64, BookError>((k - ff) as u64)
            &&& sweep_up_shape(pre_b.ticks@, post_b.ticks@, s0, k as int, end)
            &&& post_b.next_ask_tick == sweep_up_cursor(suffix, k as int, end, Some(cur))
            &&& forall|id: u64, c: Currency|
                pre_l.has(id) ==> #[trigger] post_l.bal(id, c) == pre_l.bal(id, c) - (
                if id == order.owner && c == order.debit_currency() {
                    aggr_debit_amount(order, ff, vv)
                } else {
                    0
                }) + sweep_up_credit(suffix, k as int, end, id, c) + (
                if id == order.owner && c == order.credit_currency() {
                    aggr_credit_amount(order, ff, vv)
                } else {
                    0
                })
        })
    })
}

/// Everything `run_market_ask` promises, mirrored for the bid side.
pub open spec fn market_ask_post(
    pre_b: Orderbook,
    pre_l: Ledger,
    post_b: Orderbook,
    post_l: Ledger,
    order: Order,
    end: u64,
    k: u64,
    r: Result<u64, BookError>,
) -> bool {
    &&& post_b.next_ask_tick == pre_b.next_ask_tick
    &&& post_b.book_id == pre_b.book_id
    &&& post_b.quote_asset == pre_b.quote_asset
    &&& post_b.base_asset == pre_b.base_asset
    &&& post_b.cancellation_map == pre_b.cancellation_map
    &&& post_l.count() == pre_l.count()
    &&& (pre_b.next_bid_tick is None ==> r == Ok::<u64, BookError>(k) && post_b == pre_b && post_l
        == pre_l)
    &&& (r is Err ==> r == Err::<u64, BookError>(BookError::InsufficientFunds) && post_b == pre_b
        && post_l == pre_l)
    &&& (pre_b.next_bid_tick matches Some(cur) ==> {
        let s1 = spec_upper_bound(pre_b.ticks@, cur);
        let prefix = pre_b.prefix_to(cur);
        let ff = sweep_down_filled(prefix, k as int, end);
        let vv = sweep_down_value(prefix, k as int, end);
        &&& (r is Err <==> pre_l.bal(order.owner, order.debit_currency()) < aggr_debit_amount(
            order,
            ff,
            vv,
        ))
        &&& (r is Ok ==> {
            &&& r == Ok::<u64, BookError>((k - ff) as u64)
            &&& sweep_down_shape(pre_b.ticks@, post_b.ticks@, s1, k as int, end)
            &&& post_b.next_bid_tick == sweep_down_cursor(prefix, k as int, end, Some(cur))
            &&& forall|id: u64, c: Currency|
                pre_l.has(id) ==> #[trigger] post_l.bal(id, c) == pre_l.bal(id, c) - (
                if id == order.owner && c == order.debit_currency() {
                    aggr_debit_amount(order, ff, vv)
                } else {
                    0
                }) + sweep_down_credit(prefix, k as int, end, id, c) + (
                if id == order.owner && c == order.credit_currency() {
                    aggr_credit_amount(order, ff, vv)
                } else {
                    0
                })
        })
    })
}

/// Everything `run_place_limit` promises: a non-limit order is refused
/// untouched, an owner who cannot cover the escrow is refused untouched, and
/// otherwise the escrow leaves the owner's entry and the order joins the
/// tail of the queue at its price (the level being created if need be), with
/// the matching cursor advanced if the price improves on it.
pub open spec fn place_post(
    pre_b: Orderbook,
    pre_l: Ledger,
    post_b: Orderbook,
    post_l: Ledger,
    order: Order,
    r: Result<(), BookError>,
) -> bool {
    &&& (r == Err::<(), BookError>(BookError::InvalidOrderType) <==> !(order.order_type is Limit))
    &&& (r == Err::<(), BookError>(BookError::InsufficientFunds) <==> order.order_type is Limit
        && pre_l.bal(order.owner, order.debit_currency()) < order.debit_amount(
        order.quantity as int,
        order.tick_id as int,
    ))
    &&& (r is Err ==> post_b == pre_b && post_l == pre_l)
    &&& (r is Ok ==> post_l.bal(order.owner, order.debit_currency()) == pre_l.bal(
        order.owner,
        order.debit_currency(),
    ) - order.debit_amount(order.quantity as int, order.tick_id as int))
    &&& (r is Ok ==> forall|i: u64, c: Currency|
        pre_l.has(i) && !(i == order.owner && c == order.debit_currency())
            ==> #[trigger] post_l.bal(i, c) == pre_l.bal(i, c))
    &&& (r is Ok ==> {
        let lb = spec_lower_bound(pre_b.ticks@, order.tick_id);
        let pre = pre_b.ticks@;
        let post = post_b.ticks@;
        if lb < pre.len() && pre[lb].tick_id == order.tick_id {
            &&& post.len() == pre.len()
            &&& (forall|i: int| 0 <= i < post.len() && i != lb ==> post[i] == pre[i])
            &&& post[lb].tick_id == order.tick_id
            &&& post[lb].orders@ == pre[lb].orders@.push(order)
            &&& post[lb].total_orders == pre[lb].total_orders + order.quantity
        } else {
            &&& post.len() == pre.len() + 1
            &&& (forall|i: int| 0 <= i < lb ==> post[i] == pre[i])
            &&& (forall|i: int| lb < i < post.len() ==> post[i] == pre[i - 1])
            &&& post[lb].tick_id == order.tick_id
            &&& post[lb].orders@ == seq![order]
            &&& post[lb].total_orders == order.quantity
        }
    })
    &&& (r is Ok ==> post_b.next_bid_tick == (if order.order_direction is Bid {
        raised_cursor(pre_b.next_bid_tick, order.tick_id)
    } else {
        pre_b.next_bid_tick
    }))
    &&& (r is Ok ==> post_b.next_ask_tick == (if order.order_direction is Ask {
        lowered_cursor(pre_b.next_ask_tick, order.tick_id)
    } else {
        pre_b.next_ask_tick
    }))
    &&& post_b.book_id == pre_b.book_id
    &&& post_b.quote_asset == pre_b.quote_asset
    &&& post_b.base_asset == pre_b.base_asset
    &&& post_b.cancellation_map == pre_b.cancellation_map
    &&& post_l.count() == pre_l.count()
}

/// Level pruning, upward: every level an upward sweep drains completely is
/// absent from the index afterwards — no surviving level carries its price.
pub proof fn lemma_sweep_up_pruning(pre: Seq<Tick>, post: Seq<Tick>, s0: int, k: int, end: u64)
    requires
        sweep_up_shape(pre, post, s0, k, end),
        0 <= s0 <= pre.len(),
        forall|a: int, b: int|
            0 <= a < b < pre.len() ==> (#[trigger] pre[a]).tick_id < (#[trigger] pre[b]).tick_id,
    ensures
        forall|j: int, i: int|
            s0 <= j < s0 + sweep_up_removed(pre.subrange(s0, pre.len() as int), k, end) && 0 <= i
                < post.len() ==> (#[trigger] post[i]).tick_id != (#[trigger] pre[j]).tick_id,
{
    let m = sweep_up_removed(pre.subrange(s0, pre.len() as int), k, end);
    lemma_sweep_up_removed_bounds(pre.subrange(s0, pre.len() as int), k, end);
    assert forall|j: int, i: int|
        s0 <= j < s0 + m && 0 <= i < post.len() implies (#[trigger] post[i]).tick_id != (
    #[trigger] pre[j]).tick_id by {
        if i < s0 {
            assert(pre[i].tick_id < pre[j].tick_id);
        } else if i == s0 {
            assert(post[i].tick_id == pre[s0 + m].tick_id);
            assert(pre[j].tick_id < pre[s0 + m].tick_id);
        } else {
            assert(post[i].tick_id == pre[i + m].tick_id);
            assert(pre[j].tick_id < pre[i + m].tick_id);
        }
    }
}

/// Level pruning, downward: every level a downward sweep drains completely
/// is absent from the index afterwards.
pub proof fn lemma_sweep_down_pruning(pre: Seq<Tick>, post: Seq<Tick>, s1: int, k: int, end: u64)
    requires
        sweep_down_shape(pre, post, s1, k, end),
        0 <= s1 <= pre.len(),
        forall|a: int, b: int|
            0 <= a < b < pre.len() ==> (#[trigger] pre[a]).tick_id < (#[trigger] pre[b]).tick_id,
    ensures
        forall|j: int, i: int|
            s1 - sweep_down_removed(pre.subrange(0, s1), k, end) <= j < s1 && 0 <= i < post.len()
                ==> (#[trigger] post[i]).tick_id != (#[trigger] pre[j]).tick_id,
{
    let m = sweep_down_removed(pre.subrange(0, s1), k, end);
    lemma_sweep_down_removed_bounds(pre.subrange(0, s1), k, end);
    assert forall|j: int, i: int|
        s1 - m <= j < s1 && 0 <= i < post.len() implies (#[trigger] post[i]).tick_id != (
    #[trigger] pre[j]).tick_id by {
        if i < s1 - m - 1 {
            assert(pre[i].tick_id < pre[j].tick_id);
        } else if i == s1 - m - 1 {
            assert(post[i].tick_id == pre[s1 - m - 1].tick_id);
            assert(pre[s1 - m - 1].tick_id < pre[j].tick_id);
        } else {
            assert(post[i].tick_id == pre[i + m].tick_id);
            assert(pre[j].tick_id < pre[i + m].tick_id);
        }
    }
}

/// The best-ask cursor an upward sweep leaves behind is honest: when it
/// names a price, a level at that price still rests in the index, and when
/// it is the sentinel, nothing the sweep could reach survived.
pub proof fn lemma_sweep_up_cursor_resting(
    pre: Seq<Tick>,
    post: Seq<Tick>,
    s0: int,
    k: int,
    end: u64,
    cur: Option<u64>,
)
    requires
        sweep_up_shape(pre, post, s0, k, end),
        0 <= s0 <= pre.len(),
        k > 0,
    ensures
        sweep_up_cursor(pre.subrange(s0, pre.len() as int), k, end, cur) matches Some(a)
            ==> exists|i: int| 0 <= i < post.len() && (#[trigger] post[i]).tick_id == a,
        sweep_up_cursor(pre.subrange(s0, pre.len() as int), k, end, cur) is None ==> post.len()
            == s0,
{
    let suffix = pre.subrange(s0, pre.len() as int);
    let m = sweep_up_removed(suffix, k, end);
    lemma_sweep_up_removed_bounds(suffix, k, end);
    if m < suffix.len() {
        assert(suffix[m] == pre[s0 + m]);
        assert(post[s0].tick_id == pre[s0 + m].tick_id);
    }
}

/// The best-bid cursor a downward sweep leaves behind is honest in the same
/// way.
pub proof fn lemma_sweep_down_cursor_resting(
    pre: Seq<Tick>,
    post: Seq<Tick>,
    s1: int,
    k: int,
    end: u64,
    cur: Option<u64>,
)
    requires
        sweep_down_shape(pre, post, s1, k, end),
        0 <= s1 <= pre.len(),
        k > 0,
    ensures
        sweep_down_cursor(pre.subrange(0, s1), k, end, cur) matches Some(b) ==> exists|i: int|
            0 <= i < post.len() && (#[trigger] post[i]).tick_id == b,
        sweep_down_cursor(pre.subrange(0, s1), k, end, cur) is None ==> post.len() == pre.len()
            - s1,
{
    let prefix = pre.subrange(0, s1);
    let m = sweep_down_removed(prefix, k, end);
    lemma_sweep_down_removed_bounds(prefix, k, end);
    if m < prefix.len() {
        assert(prefix[s1 - 1 - m] == pre[s1 - 1 - m]);
        assert(post[s1 - m - 1].tick_id == pre[s1 - m - 1].tick_id);
    }
}

/// A refused result that is not a type problem is a funds problem: the
/// error kinds are only two.
pub proof fn lemma_refusal_is_funds(r: Result<(), BookError>)
    requires
        r != Err::<(), BookError>(BookError::InvalidOrderType),
    ensures
        r is Err ==> r == Err::<(), BookError>(BookError::InsufficientFunds),
{
    match r {
        Ok(_) => {},
        Err(e) => {
            match e {
                BookError::InsufficientFunds => {},
                BookError::InvalidOrderType => {},
            }
        },
    }
}

/// Whether a limit bid crosses the spread: it is priced at or above the
/// current best ask.
pub open spec fn crossing_bid(pre_b: Orderbook, order: Order) -> bool {
    match pre_b.next_ask_tick {
        Some(a) => order.tick_id >= a,
        None => false,
    }
}

/// Whether a limit ask crosses the spread: it is priced at or below the
/// current best bid.
pub open spec fn crossing_ask(pre_b: Orderbook, order: Order) -> bool {
    match pre_b.next_bid_tick {
        Some(b) => order.tick_id <= b,
        None => false,
    }
}

/// Everything `run_partial_or_full_limit` promises: a crossing limit order
/// first sweeps the opposite side bounded by its own price, then any
/// remainder rests on the book at its own price (with the order resized to
/// that remainder); a non-crossing one rests whole. A fully crossed order
/// rests nothing and is left as it was.
pub open spec fn limit_post(
    pre_b: Orderbook,
    pre_l: Ledger,
    post_b: Orderbook,
    post_l: Ledger,
    pre_o: Order,
    post_o: Order,
    r: Result<(), BookError>,
) -> bool {
    let crossing = if pre_o.order_direction is Bid {
        crossing_bid(pre_b, pre_o)
    } else {
        crossing_ask(pre_b, pre_o)
    };
    &&& post_o == (Order { quantity: post_o.quantity, ..pre_o })
    &&& (pre_o.order_type is Limit && r is Err ==> r == Err::<(), BookError>(
        BookError::InsufficientFunds,
    ))
    &&& (!crossing ==> post_o == pre_o && (if pre_o.quantity > 0 {
        place_post(pre_b, pre_l, post_b, post_l, pre_o, r)
    } else {
        r is Ok && post_b == pre_b && post_l == pre_l
    }))
    &&& (crossing ==> exists|mid_b: Orderbook, mid_l: Ledger, rr: Result<u64, BookError>|
        #![trigger market_bid_post(pre_b, pre_l, mid_b, mid_l, pre_o, pre_o.tick_id, pre_o.quantity, rr)]
        #![trigger market_ask_post(pre_b, pre_l, mid_b, mid_l, pre_o, pre_o.tick_id, pre_o.quantity, rr)]
        {
            &&& (if pre_o.order_direction is Bid {
                market_bid_post(
                    pre_b,
                    pre_l,
                    mid_b,
                    mid_l,
                    pre_o,
                    pre_o.tick_id,
                    pre_o.quantity,
                    rr,
                )
            } else {
                market_ask_post(pre_b, pre_l, mid_b, mid_l, pre_o, pre_o.tick_id, pre_o.quantity, rr)
            })
            &&& (rr is Err ==> r == Err::<(), BookError>(BookError::InsufficientFunds) && post_b
                == mid_b && post_l == mid_l && post_o == pre_o)
            &&& (rr matches Ok(left) ==> (if left > 0 {
                post_o.quantity == left && place_post(
                    mid_b,
                    mid_l,
                    post_b,
                    post_l,
                    (Order { quantity: left, ..pre_o }),
                    r,
                )
            } else {
                r is Ok && post_b == mid_b && post_l == mid_l && post_o == pre_o
            }))
        })
}

/// A best-bid cursor after a bid rests at `t`: the cursor rises to `t` when
/// `t` improves on it (or when there was no bid at all).
pub open spec fn raised_cursor(cur: Option<u64>, t: u64) -> Option<u64> {
    match cur {
        None => Some(t),
        Some(c) => Some(if t > c {
            t
        } else {
            c
        }),
    }
}

/// A best-ask cursor after an ask rests at `t`: the cursor falls to `t` when
/// `t` improves on it (or when there was no ask at all).
pub open spec fn lowered_cursor(cur: Option<u64>, t: u64) -> Option<u64> {
    match cur {
        None => Some(t),
        Some(c) => Some(if t < c {
            t
        } else {
            c
        }),
    }
}

/// The order book. `ticks` is sorted strictly ascending by price and holds a
/// level exactly as long as at least one order rests there; the two cursors
/// cache the best resting price on each side, `None` standing for "no
/// liquidity on this side".
#[derive(Debug)]
pub struct Orderbook {
    pub book_id: u64,
    pub quote_asset: Currency,
    pub base_asset: Currency,
    pub next_bid_tick: Option<u64>,
    pub next_ask_tick: Option<u64>,
    pub ticks: Vec<Tick>,
    pub cancellation_map: Vec<(u64, u64)>,
}

impl Orderbook {
    /// The price index is sorted strictly ascending, and every level in it is
    /// a well-formed non-empty queue of orders resting at that level's price.
    pub open spec fn wf(self) -> bool {
        &&& forall|i: int, j: int|
            0 <= i < j < self.ticks@.len() ==> (#[trigger] self.ticks@[i]).tick_id < (
            #[trigger] self.ticks@[j]).tick_id
        &&& forall|i: int| 0 <= i < self.ticks@.len() ==> (#[trigger] self.ticks@[i]).level_wf()
    }

    /// Every order resting anywhere in the book belongs to an account of
    /// `ledger`.
    pub open spec fn owners_in(self, ledger: Ledger) -> bool {
        forall|i: int|
            0 <= i < self.ticks@.len() ==> (#[trigger] self.ticks@[i]).owners_in(ledger)
    }

    /// A fresh book over the OSMO/USD pair: empty price index, both cursors
    /// at their no-liquidity sentinel.
    pub fn new(book_id: u64) -> (r: Orderbook)
        ensures
            r.wf(),
            r.book_id == book_id,
            r.quote_asset == Currency::OSMO,
            r.base_asset == Currency::USD,
            r.next_bid_tick is None,
            r.next_ask_tick is None,
            r.ticks@.len() == 0,
    {
        Orderbook {
            book_id,
            quote_asset: Currency::OSMO,
            base_asset: Currency::USD,
            next_bid_tick: None,
            next_ask_tick: None,
            ticks: Vec::new(),
            cancellation_map: Vec::new(),
        }
    }

    /// The position of the first level priced at or above `target`.
    fn lower_bound(&self, target: u64) -> (i: usize)
        ensures
            i == spec_lower_bound(self.ticks@, target),
    {
        let n = self.ticks.len();
        let mut i: usize = 0;
        proof {
            assert(self.ticks@.subrange(0, n as int) =~= self.ticks@);
        }
        while i < n && self.ticks[i].tick_id < target
            invariant
                0 <= i <= n,
                n == self.ticks@.len(),
                spec_lower_bound(self.ticks@, target) == i + spec_lower_bound(
                    self.ticks@.subrange(i as int, n as int),
                    target,
                ),
            decreases n - i,
        {
            proof {
                assert(self.ticks@.subrange(i as int, n as int).drop_first() =~= self.ticks@
                    .subrange(i + 1, n as int));
            }
            i = i + 1;
        }
        proof {
            assert(self.ticks@.subrange(0, n as int) =~= self.ticks@);
            if i < n {
                assert(self.ticks@.subrange(i as int, n as int)[0] == self.ticks@[i as int]);
            }
        }
        i
    }

    /// Read-only first pass of an upward sweep: how much would be drained
    /// from the levels at positions `s0..` (bounded by `end`, budget `k`) and
    /// what that is worth. `None` when the worth exceeds `u64::MAX` — no
    /// balance could ever pay it.
    fn plan_sweep_up(&self, s0: usize, end: u64, k: u64) -> (r: Option<(u64, u64)>)
        requires
            self.wf(),
            s0 <= self.ticks@.len(),
        ensures
            ({
                let suffix = self.ticks@.subrange(s0 as int, self.ticks@.len() as int);
                match r {
                    Some(fv) => fv.0 == sweep_up_filled(suffix, k as int, end) && fv.1
                        == sweep_up_value(suffix, k as int, end),
                    None => sweep_up_value(suffix, k as int, end) > u64::MAX,
                }
            }),
        decreases self.ticks@.len() - s0,
    {
        let n = self.ticks.len();
        let ghost suffix = self.ticks@.subrange(s0 as int, n as int);
        if k == 0 || s0 >= n {
            return Some((0, 0));
        }
        proof {
            assert(suffix[0] == self.ticks@[s0 as int]);
            assert(suffix.drop_first() =~= self.ticks@.subrange(s0 as int + 1, n as int));
        }
        let t0 = self.ticks[s0].tick_id;
        if t0 >= end {
            return Some((0, 0));
        }
        let tot = self.ticks[s0].total_orders;
        let f = if k <= tot {
            k
        } else {
            tot
        };
        proof {
            lemma_sum_nonneg(self.ticks@[s0 as int].orders@);
            lemma_sweep_up_value_nonneg(suffix.drop_first(), k - f, end);
            lemma_sweep_up_filled_bounds(suffix.drop_first(), k - f, end);
            vstd::arithmetic::mul::lemma_mul_nonnegative(f as int, t0 as int);
        }
        let value0 = match f.checked_mul(t0) {
            Some(v) => v,
            None => {
                return None;
            },
        };
        match self.plan_sweep_up(s0 + 1, end, k - f) {
            None => None,
            Some(rest) => {
                match value0.checked_add(rest.1) {
                    Some(v) => Some((f + rest.0, v)),
                    None => None,
                }
            },
        }
    }

    /// Committing pass of an upward sweep: drains the levels at positions
    /// `s0..` in price order (bounded by `end`, budget `k`), settling every
    /// consumed resting order into its owner's ledger entry, pruning levels
    /// whose queues empty, and leaving the best-ask cursor on the cheapest
    /// surviving level (or at the sentinel when none survives). Returns the
    /// budget it could not place.
    fn sweep_asks(&mut self, ledger: &mut Ledger, s0: usize, end: u64, k: u64) -> (leftover: u64)
        requires
            old(self).wf(),
            old(ledger).wf(),
            old(self).owners_in(*old(ledger)),
            s0 <= old(self).ticks@.len(),
            forall|id: u64, c: Currency|
                old(ledger).has(id) ==> old(ledger).bal(id, c) + sweep_up_credit(
                    old(self).ticks@.subrange(s0 as int, old(self).ticks@.len() as int),
                    k as int,
                    end,
                    id,
                    c,
                ) <= u64::MAX,
        ensures
            final(self).wf(),
            final(ledger).wf(),
            final(ledger).count() == old(ledger).count(),
            final(self).owners_in(*final(ledger)),
            leftover == k - sweep_up_filled(
                old(self).ticks@.subrange(s0 as int, old(self).ticks@.len() as int),
                k as int,
                end,
            ),
            sweep_up_shape(old(self).ticks@, final(self).ticks@, s0 as int, k as int, end),
            final(self).next_ask_tick == sweep_up_cursor(
                old(self).ticks@.subrange(s0 as int, old(self).ticks@.len() as int),
                k as int,
                end,
                old(self).next_ask_tick,
            ),
            forall|id: u64, c: Currency|
                old(ledger).has(id) ==> #[trigger] final(ledger).bal(id, c) == old(ledger).bal(
                    id,
                    c,
                ) + sweep_up_credit(
                    old(self).ticks@.subrange(s0 as int, old(self).ticks@.len() as int),
                    k as int,
                    end,
                    id,
                    c,
                ),
            final(self).next_bid_tick == old(self).next_bid_tick,
            final(self).book_id == old(self).book_id,
            final(self).quote_asset == old(self).quote_asset,
            final(self).base_asset == old(self).base_asset,
            final(self).cancellation_map == old(self).cancellation_map,
        decreases old(self).ticks@.len() - s0,
    {
        let n = self.ticks.len();
        let ghost suffix = self.ticks@.subrange(s0 as int, n as int);
        if k == 0 {
            return 0;
        }
        if s0 >= n {
            self.next_ask_tick = None;
            return k;
        }
        proof {
            assert(suffix[0] == self.ticks@[s0 as int]);
            assert(suffix.drop_first() =~= self.ticks@.subrange(s0 as int + 1, n as int));
        }
        let t0 = self.ticks[s0].tick_id;
        if t0 >= end {
            // The first reachable level is already at or past the bound: the
            // walk stops with the cursor naming that untouched level.
            self.next_ask_tick = Some(t0);
            return k;
        }
        let mut level = self.ticks.remove(s0);
        let ghost tot = sum_quantities(level.orders@);
        proof {
            assert(old(self).ticks@[s0 as int].level_wf());
            lemma_sum_nonneg(level.orders@);
            assert forall|id: u64, c: Currency| ledger.has(id) implies ledger.bal(id, c)
                + drain_credit(level.orders@, k as int, id, c) <= u64::MAX by {
                if k as int >= tot {
                    lemma_sweep_up_credit_nonneg(suffix.drop_first(), k - tot, end, id, c);
                } else {
                    lemma_drain_credit_nonneg(level.orders@, k as int, id, c);
                }
                assert(old(ledger).bal(id, c) + sweep_up_credit(suffix, k as int, end, id, c)
                    <= u64::MAX);
            }
        }
        let rem = level.fill_tick(ledger, k);
        proof {
            lemma_drain_shape(old(self).ticks@[s0 as int].orders@, k as int);
        }
        if level.orders.len() == 0 {
            // The queue emptied: the budget covered the whole level, the
            // level stays out of the index, and the walk continues. Should
            // the rest of the budget be zero, the cursor must already rest on
            // the next surviving level (or the sentinel): the recursion then
            // returns it unmoved.
            if s0 < self.ticks.len() {
                let t_next = self.ticks[s0].tick_id;
                self.next_ask_tick = Some(t_next);
            } else {
                self.next_ask_tick = None;
            }
            proof {
                assert(k as int >= tot);
                assert(rem == k - tot);
                let mid = self.ticks@;
                assert(mid =~= old(self).ticks@.remove(s0 as int));
                old(self).ticks@.remove_ensures(s0 as int);
                assert(mid.subrange(s0 as int, mid.len() as int) =~= suffix.drop_first());
                assert forall|a: int, b: int| 0 <= a < b < mid.len() implies (
                #[trigger] mid[a]).tick_id < (#[trigger] mid[b]).tick_id by {
                    let pa = if a < s0 {
                        a
                    } else {
                        a + 1
                    };
                    let pb = if b < s0 {
                        b
                    } else {
                        b + 1
                    };
                    assert(old(self).ticks@[pa].tick_id < old(self).ticks@[pb].tick_id);
                }
                assert forall|i: int| 0 <= i < mid.len() implies (
                #[trigger] mid[i]).level_wf() by {
                    let pi = if i < s0 {
                        i
                    } else {
                        i + 1
                    };
                    assert(old(self).ticks@[pi].level_wf());
                }
                assert forall|i: int| 0 <= i < mid.len() implies (#[trigger] mid[i]).owners_in(
                    *ledger,
                ) by {
                    let pi = if i < s0 {
                        i
                    } else {
                        i + 1
                    };
                    assert(old(self).ticks@[pi].owners_in(*old(ledger)));
                }
                assert forall|id: u64, c: Currency| ledger.has(id) implies ledger.bal(id, c)
                    + sweep_up_credit(suffix.drop_first(), rem as int, end, id, c)
                    <= u64::MAX by {
                    assert(ledger.bal(id, c) == old(ledger).bal(id, c) + drain_credit(
                        old(self).ticks@[s0 as int].orders@,
                        k as int,
                        id,
                        c,
                    ));
                    assert(old(ledger).bal(id, c) + sweep_up_credit(suffix, k as int, end, id, c)
                        <= u64::MAX);
                }
            }
            let ghost mid_ledger = *ledger;
            let ghost mid_book = *self;
            let leftover = self.sweep_asks(ledger, s0, end, rem);
            proof {
                let pre = old(self).ticks@;
                let mid = mid_book.ticks@;
                let post = final(self).ticks@;
                old(self).ticks@.remove_ensures(s0 as int);
                lemma_sweep_up_removed_bounds(suffix.drop_first(), rem as int, end);
                let m2 = sweep_up_removed(suffix.drop_first(), rem as int, end);
                let part2 = sweep_up_partial(suffix.drop_first(), rem as int, end);
                assert(mid.subrange(s0 as int, mid.len() as int) =~= suffix.drop_first());
                assert(sweep_up_removed(suffix, k as int, end) == 1 + m2);
                assert(sweep_up_partial(suffix, k as int, end) == part2);
                assert(sweep_up_filled(suffix, k as int, end) == tot + sweep_up_filled(
                    suffix.drop_first(),
                    rem as int,
                    end,
                ));
                assert(sweep_up_shape(mid, post, s0 as int, rem as int, end));
                assert(mid =~= pre.remove(s0 as int));
                assert forall|i: int| 0 <= i < s0 implies post[i] == pre[i] by {
                    assert(pre.remove(s0 as int)[i] == pre[i]);
                    assert(post[i] == mid[i]);
                }
                assert forall|i: int| s0 < i < post.len() implies post[i] == pre[i + 1 + m2] by {
                    assert(post[i] == mid[i + m2]);
                    assert(pre.remove(s0 as int)[i + m2] == pre[i + m2 + 1]);
                    assert(mid[i + m2] == pre[i + m2 + 1]);
                }
                if (s0 as int) < post.len() {
                    assert(pre.remove(s0 as int)[s0 + m2] == pre[s0 + m2 + 1]);
                    assert(mid[s0 + m2] == pre[s0 + m2 + 1]);
                }
                assert(sweep_up_shape(pre, post, s0 as int, k as int, end));
                // The cursor lands on the cheapest surviving level: either
                // the recursion placed it there, or — with the budget spent
                // exactly here — it was already set before the recursion.
                if rem > 0 {
                    if m2 < suffix.len() - 1 {
                        assert(suffix.drop_first()[m2] == suffix[1 + m2]);
                    }
                } else {
                    assert(m2 == 0);
                    if (s0 as int) + 1 < n as int {
                        assert(mid[s0 as int] == suffix.drop_first()[0]);
                        assert(suffix.drop_first()[0] == suffix[1]);
                    }
                }
                assert(final(self).next_ask_tick == sweep_up_cursor(
                    suffix,
                    k as int,
                    end,
                    old(self).next_ask_tick,
                ));
                assert forall|id: u64, c: Currency| old(ledger).has(id) implies
                    #[trigger] final(ledger).bal(id, c) == old(ledger).bal(id, c)
                    + sweep_up_credit(suffix, k as int, end, id, c) by {
                    assert(final(ledger).bal(id, c) == mid_ledger.bal(id, c) + sweep_up_credit(
                        suffix.drop_first(),
                        rem as int,
                        end,
                        id,
                        c,
                    ));
                    assert(mid_ledger.bal(id, c) == old(ledger).bal(id, c) + drain_credit(
                        old(self).ticks@[s0 as int].orders@,
                        k as int,
                        id,
                        c,
                    ));
                }
            }
            leftover
        } else {
            // The level survives: the budget ran out inside its queue, so the
            // drained level goes back into the index, the walk stops here,
            // and the cursor names this level's price.
            self.ticks.insert(s0, level);
            self.next_ask_tick = Some(t0);
            proof {
                assert(!(k as int >= tot));
                assert(rem == 0);
                let pre = old(self).ticks@;
                let post = self.ticks@;
                assert(post =~= pre.update(s0 as int, level));
                assert(sweep_up_removed(suffix, k as int, end) == 0);
                assert(sweep_up_partial(suffix, k as int, end) == k);
                assert(sweep_up_filled(suffix, k as int, end) == k + sweep_up_filled(
                    suffix.drop_first(),
                    0,
                    end,
                ));
                assert forall|a: int, b: int| 0 <= a < b < post.len() implies (
                #[trigger] post[a]).tick_id < (#[trigger] post[b]).tick_id by {
                    assert(pre[a].tick_id < pre[b].tick_id);
                }
                // The surviving level is still a well-formed non-empty queue
                // resting at the same price.
                assert(level.orders@ == drain_orders(pre[s0 as int].orders@, k as int));
                assert(level.level_wf()) by {
                    assert forall|j: int| 0 <= j < level.orders@.len() implies (
                    #[trigger] level.orders@[j]).quantity >= 1 && level.orders@[j].tick_id
                        == level.tick_id by {
                        let dr = drain_orders(pre[s0 as int].orders@, k as int);
                        let shift = pre[s0 as int].orders@.len() - dr.len();
                        if j >= 1 {
                            assert(dr[j] == pre[s0 as int].orders@[shift + j]);
                        }
                    }
                }
                assert forall|i: int| 0 <= i < post.len() implies (
                #[trigger] post[i]).level_wf() by {
                    if i != s0 {
                        assert(pre[i].level_wf());
                    }
                }
                assert forall|i: int| 0 <= i < post.len() implies (#[trigger] post[i]).owners_in(
                    *ledger,
                ) by {
                    assert(pre[i].owners_in(*old(ledger)));
                    if i == s0 {
                        let dr = drain_orders(pre[s0 as int].orders@, k as int);
                        let shift = pre[s0 as int].orders@.len() - dr.len();
                        assert forall|j: int| 0 <= j < dr.len() implies ledger.has(
                            (#[trigger] dr[j]).owner,
                        ) by {
                            if j >= 1 {
                                assert(dr[j] == pre[s0 as int].orders@[shift + j]);
                            }
                            assert(pre[s0 as int].orders@[shift + j].owner == dr[j].owner);
                        }
                    }
                }
                assert(sweep_up_shape(pre, post, s0 as int, k as int, end));
            }
            0
        }
    }

    /// Rests a limit order on the level priced at its own `tick_id`, creating
    /// the level if none exists: the order's full collateral is escrowed from
    /// its owner first, the order joins the tail of the level's queue, and
    /// the matching best-price cursor advances if the new price improves on
    /// it. Refuses a non-limit order (`InvalidOrderType`) and an owner who
    /// cannot cover the escrow (`InsufficientFunds`), both without changing
    /// anything.
    pub fn run_place_limit(&mut self, ledger: &mut Ledger, order: &Order) -> (r: Result<
        (),
        BookError,
    >)
        requires
            old(self).wf(),
            old(ledger).wf(),
            old(ledger).has(order.owner),
            old(self).owners_in(*old(ledger)),
            order.quantity >= 1,
            forall|i: int|
                0 <= i < old(self).ticks@.len() && (#[trigger] old(self).ticks@[i]).tick_id
                    == order.tick_id ==> old(self).ticks@[i].total_orders + order.quantity
                    <= u64::MAX,
        ensures
            final(self).wf(),
            final(ledger).wf(),
            final(ledger).count() == old(ledger).count(),
            final(self).owners_in(*final(ledger)),
            r == Err::<(), BookError>(BookError::InvalidOrderType) <==> !(order.order_type
                is Limit),
            r == Err::<(), BookError>(BookError::InsufficientFunds) <==> order.order_type is Limit
                && old(ledger).bal(order.owner, order.debit_currency()) < order.debit_amount(
                order.quantity as int,
                order.tick_id as int,
            ),
            r is Err ==> *final(self) == *old(self) && *final(ledger) == *old(ledger),
            r is Ok ==> final(ledger).bal(order.owner, order.debit_currency()) == old(ledger).bal(
                order.owner,
                order.debit_currency(),
            ) - order.debit_amount(order.quantity as int, order.tick_id as int),
            r is Ok ==> forall|i: u64, c: Currency|
                old(ledger).has(i) && !(i == order.owner && c == order.debit_currency())
                    ==> #[trigger] final(ledger).bal(i, c) == old(ledger).bal(i, c),
            r is Ok ==> {
                let lb = spec_lower_bound(old(self).ticks@, order.tick_id);
                let pre = old(self).ticks@;
                let post = final(self).ticks@;
                if lb < pre.len() && pre[lb].tick_id == order.tick_id {
                    &&& post.len() == pre.len()
                    &&& forall|i: int| 0 <= i < post.len() && i != lb ==> post[i] == pre[i]
                    &&& post[lb].tick_id == order.tick_id
                    &&& post[lb].orders@ == pre[lb].orders@.push(*order)
                    &&& post[lb].total_orders == pre[lb].total_orders + order.quantity
                } else {
                    &&& post.len() == pre.len() + 1
                    &&& forall|i: int| 0 <= i < lb ==> post[i] == pre[i]
                    &&& forall|i: int| lb < i < post.len() ==> post[i] == pre[i - 1]
                    &&& post[lb].tick_id == order.tick_id
                    &&& post[lb].orders@ == seq![*order]
                    &&& post[lb].total_orders == order.quantity
                }
            },
            r is Ok ==> final(self).next_bid_tick == (if order.order_direction is Bid {
                raised_cursor(old(self).next_bid_tick, order.tick_id)
            } else {
                old(self).next_bid_tick
            }),
            r is Ok ==> final(self).next_ask_tick == (if order.order_direction is Ask {
                lowered_cursor(old(self).next_ask_tick, order.tick_id)
            } else {
                old(self).next_ask_tick
            }),
            final(self).book_id == old(self).book_id,
            final(self).quote_asset == old(self).quote_asset,
            final(self).base_asset == old(self).base_asset,
            final(self).cancellation_map == old(self).cancellation_map,
    {
        if !matches!(order.order_type(), OrderType::Limit) {
            return Err(BookError::InvalidOrderType);
        }
        let tick_id = order.tick_id();

        // Escrow the order's full collateral before it may rest.
        match order.withdraw_deposited_assets(ledger, order.quantity(), tick_id) {
            Ok(()) => (),
            Err(e) => {
                return Err(e);
            },
        }

        let i = self.lower_bound(tick_id);
        proof {
            lemma_lower_bound(self.ticks@, tick_id);
        }
        let n = self.ticks.len();
        if i < n && self.ticks[i].tick_id == tick_id {
            let mut level = self.ticks.remove(i);
            match level.place_limit(*order) {
                Ok(()) => (),
                Err(e) => {
                    proof {
                        assert(false);
                    }
                    return Err(e);
                },
            }
            self.ticks.insert(i, level);
            proof {
                assert forall|a: int, b: int|
                    0 <= a < b < self.ticks@.len() implies (#[trigger] self.ticks@[a]).tick_id < (
                #[trigger] self.ticks@[b]).tick_id by {
                    assert(old(self).ticks@[a].tick_id < old(self).ticks@[b].tick_id);
                }
            }
        } else {
            let mut level = Tick::new(tick_id);
            match level.place_limit(*order) {
                Ok(()) => (),
                Err(e) => {
                    proof {
                        assert(false);
                    }
                    return Err(e);
                },
            }
            self.ticks.insert(i, level);
            proof {
                assert forall|a: int, b: int|
                    0 <= a < b < self.ticks@.len() implies (#[trigger] self.ticks@[a]).tick_id < (
                #[trigger] self.ticks@[b]).tick_id by {
                    let pre = old(self).ticks@;
                    if b < i {
                        assert(pre[a].tick_id < pre[b].tick_id);
                    } else if a < i && b == i {
                        assert(pre[a].tick_id < tick_id);
                    } else if a < i && b > i {
                        assert(pre[a].tick_id < pre[b - 1].tick_id || a == b - 1);
                        assert(pre[b - 1].tick_id >= tick_id && pre[b - 1].tick_id != tick_id);
                    } else if a == i {
                        assert(pre[b - 1].tick_id >= tick_id && pre[b - 1].tick_id != tick_id);
                    } else {
                        assert(pre[a - 1].tick_id < pre[b - 1].tick_id);
                    }
                }
            }
        }
        match order.order_direction() {
            OrderDirection::Bid => {
                self.next_bid_tick = match self.next_bid_tick {
                    None => Some(tick_id),
                    Some(c) => Some(
                        if tick_id > c {
                            tick_id
                        } else {
                            c
                        },
                    ),
                };
            },
            OrderDirection::Ask => {
                self.next_ask_tick = match self.next_ask_tick {
                    None => Some(tick_id),
                    Some(c) => Some(
                        if tick_id < c {
                            tick_id
                        } else {
                            c
                        },
                    ),
                };
            },
        }
        Ok(())
    }

    /// The levels at or beyond price `cur`, in walk order for an upward
    /// sweep.
    pub open spec fn suffix_from(self, cur: u64) -> Seq<Tick> {
        self.ticks@.subrange(spec_lower_bound(self.ticks@, cur), self.ticks@.len() as int)
    }

    /// No balance that an upward sweep for `order` (budget `k`, bound `end`)
    /// credits can outgrow `u64::MAX`: what machine arithmetic demands of the
    /// ledger before such a sweep may run.
    pub open spec fn market_bid_safe(self, ledger: Ledger, order: Order, end: u64, k: u64) -> bool {
        match self.next_ask_tick {
            None => true,
            Some(cur) => {
                let suffix = self.suffix_from(cur);
                let ff = sweep_up_filled(suffix, k as int, end);
                let vv = sweep_up_value(suffix, k as int, end);
                forall|id: u64, c: Currency|
                    ledger.has(id) ==> #[trigger] ledger.bal(id, c) - (
                    if id == order.owner && c == order.debit_currency() {
                        aggr_debit_amount(order, ff, vv)
                    } else {
                        0
                    }) + sweep_up_credit(suffix, k as int, end, id, c) + (
                    if id == order.owner && c == order.credit_currency() {
                        aggr_credit_amount(order, ff, vv)
                    } else {
                        0
                    }) <= u64::MAX
            },
        }
    }

    /// Executes an aggressive order against the ask side: starting at the
    /// best-ask cursor and walking away from it, resting liquidity strictly
    /// below `end_tick` is consumed until `quantity` is exhausted, the bound
    /// is reached, or the side runs out — running out of liquidity is not an
    /// error, the rest of the budget is simply returned. The aggressor's
    /// whole cost is taken first (check-then-commit: if the owner cannot
    /// cover it, `InsufficientFunds` comes back and nothing has changed),
    /// then the levels are drained — each resting order settling at its own
    /// price — and the aggressor is credited with everything bought.
    pub fn run_market_bid(
        &mut self,
        ledger: &mut Ledger,
        order: &Order,
        end_tick: u64,
        quantity: u64,
    ) -> (r: Result<u64, BookError>)
        requires
            old(self).wf(),
            old(ledger).wf(),
            old(self).owners_in(*old(ledger)),
            old(ledger).has(order.owner),
            old(self).market_bid_safe(*old(ledger), *order, end_tick, quantity),
        ensures
            final(self).wf(),
            final(ledger).wf(),
            final(ledger).count() == old(ledger).count(),
            final(self).owners_in(*final(ledger)),
            final(self).next_bid_tick == old(self).next_bid_tick,
            final(self).book_id == old(self).book_id,
            final(self).quote_asset == old(self).quote_asset,
            final(self).base_asset == old(self).base_asset,
            final(self).cancellation_map == old(self).cancellation_map,
            old(self).next_ask_tick is None ==> r == Ok::<u64, BookError>(quantity) && *final(self)
                == *old(self) && *final(ledger) == *old(ledger),
            r is Err ==> r == Err::<u64, BookError>(BookError::InsufficientFunds) && *final(self)
                == *old(self) && *final(ledger) == *old(ledger),
            old(self).next_ask_tick matches Some(cur) ==> {
                let s0 = spec_lower_bound(old(self).ticks@, cur);
                let suffix = old(self).suffix_from(cur);
                let ff = sweep_up_filled(suffix, quantity as int, end_tick);
                let vv = sweep_up_value(suffix, quantity as int, end_tick);
                &&& (r is Err <==> old(ledger).bal(order.owner, order.debit_currency())
                    < aggr_debit_amount(*order, ff, vv))
                &&& (r is Ok ==> {
                    &&& r == Ok::<u64, BookError>((quantity - ff) as u64)
                    &&& sweep_up_shape(
                        old(self).ticks@,
                        final(self).ticks@,
                        s0,
                        quantity as int,
                        end_tick,
                    )
                    &&& final(self).next_ask_tick == sweep_up_cursor(
                        suffix,
                        quantity as int,
                        end_tick,
                        Some(cur),
                    )
                    &&& forall|id: u64, c: Currency|
                        old(ledger).has(id) ==> #[trigger] final(ledger).bal(id, c) == old(
                            ledger,
                        ).bal(id, c) - (
                        if id == order.owner && c == order.debit_currency() {
                            aggr_debit_amount(*order, ff, vv)
                        } else {
                            0
                        }) + sweep_up_credit(suffix, quantity as int, end_tick, id, c) + (
                        if id == order.owner && c == order.credit_currency() {
                            aggr_credit_amount(*order, ff, vv)
                        } else {
                            0
                        })
                })
            },
    {
        let cur = match self.next_ask_tick {
            None => {
                return Ok(quantity);
            },
            Some(c) => c,
        };
        let s0 = self.lower_bound(cur);
        proof {
            lemma_lower_bound(self.ticks@, cur);
        }
        let ghost suffix = self.suffix_from(cur);
        let ghost ff = sweep_up_filled(suffix, quantity as int, end_tick);
        let ghost vv = sweep_up_value(suffix, quantity as int, end_tick);
        proof {
            lemma_sweep_up_filled_bounds(suffix, quantity as int, end_tick);
            lemma_sweep_up_value_nonneg(suffix, quantity as int, end_tick);
        }
        let planned = self.plan_sweep_up(s0, end_tick, quantity);
        let (filled, value) = match planned {
            Some(fv) => fv,
            None => {
                // The sweep would be worth more than any balance can hold.
                match order.order_direction() {
                    OrderDirection::Bid => {
                        return Err(BookError::InsufficientFunds);
                    },
                    OrderDirection::Ask => {
                        // A seller would have to be credited that worth, which
                        // the safety precondition rules out.
                        proof {
                            lemma_sweep_up_credit_nonneg(
                                suffix,
                                quantity as int,
                                end_tick,
                                order.owner,
                                Currency::USD,
                            );
                            assert(old(ledger).bal(order.owner, Currency::USD) - 0
                                + sweep_up_credit(
                                suffix,
                                quantity as int,
                                end_tick,
                                order.owner,
                                Currency::USD,
                            ) + vv <= u64::MAX);
                            assert(false);
                        }
                        return Err(BookError::InsufficientFunds);
                    },
                }
            },
        };
        let debit = match order.order_direction() {
            OrderDirection::Bid => value,
            OrderDirection::Ask => filled,
        };
        match ledger.withdraw(order.owner(), order.debit_asset(), debit) {
            Ok(()) => (),
            Err(e) => {
                return Err(e);
            },
        }
        let ghost mid_ledger = *ledger;
        proof {
            assert forall|id: u64, c: Currency| ledger.has(id) implies ledger.bal(id, c)
                + sweep_up_credit(suffix, quantity as int, end_tick, id, c) <= u64::MAX by {
                assert(old(ledger).bal(id, c) - (
                if id == order.owner && c == order.debit_currency() {
                    aggr_debit_amount(*order, ff, vv)
                } else {
                    0
                }) + sweep_up_credit(suffix, quantity as int, end_tick, id, c) + (
                if id == order.owner && c == order.credit_currency() {
                    aggr_credit_amount(*order, ff, vv)
                } else {
                    0
                }) <= u64::MAX);
            }
        }
        let leftover = self.sweep_asks(ledger, s0, end_tick, quantity);
        let credit = match order.order_direction() {
            OrderDirection::Bid => quantity - leftover,
            OrderDirection::Ask => value,
        };
        proof {
            lemma_sweep_up_credit_nonneg(
                suffix,
                quantity as int,
                end_tick,
                order.owner,
                order.credit_currency(),
            );
            assert(old(ledger).bal(order.owner, order.credit_currency()) - 0 + sweep_up_credit(
                suffix,
                quantity as int,
                end_tick,
                order.owner,
                order.credit_currency(),
            ) + aggr_credit_amount(*order, ff, vv) <= u64::MAX);
        }
        ledger.deposit(order.owner(), order.credit_asset(), credit);
        proof {
            assert forall|id: u64, c: Currency|
                old(ledger).has(id) implies #[trigger] ledger.bal(id, c) == old(ledger).bal(id, c)
                - (
            if id == order.owner && c == order.debit_currency() {
                aggr_debit_amount(*order, ff, vv)
            } else {
                0
            }) + sweep_up_credit(suffix, quantity as int, end_tick, id, c) + (
            if id == order.owner && c == order.credit_currency() {
                aggr_credit_amount(*order, ff, vv)
            } else {
                0
            }) by {
                if !(id == order.owner && c == order.credit_currency()) {
                    assert(ledger.bal(id, c) == mid_ledger.bal(id, c) + sweep_up_credit(
                        suffix,
                        quantity as int,
                        end_tick,
                        id,
                        c,
                    ));
                }
            }
        }
        Ok(leftover)
    }

    /// The position just past the most expensive level priced at or below
    /// `target`.
    fn upper_bound(&self, target: u64) -> (i: usize)
        ensures
            i == spec_upper_bound(self.ticks@, target),
    {
        let n = self.ticks.len();
        let mut i: usize = 0;
        proof {
            assert(self.ticks@.subrange(0, n as int) =~= self.ticks@);
        }
        while i < n && self.ticks[i].tick_id <= target
            invariant
                0 <= i <= n,
                n == self.ticks@.len(),
                spec_upper_bound(self.ticks@, target) == i + spec_upper_bound(
                    self.ticks@.subrange(i as int, n as int),
                    target,
                ),
            decreases n - i,
        {
            proof {
                assert(self.ticks@.subrange(i as int, n as int).drop_first() =~= self.ticks@
                    .subrange(i + 1, n as int));
            }
            i = i + 1;
        }
        proof {
            if i < n {
                assert(self.ticks@.subrange(i as int, n as int)[0] == self.ticks@[i as int]);
            }
        }
        i
    }

    /// Read-only first pass of a downward sweep: how much would be drained
    /// from the levels at positions `..s1` (bounded below by `end`, budget
    /// `k`, walking from position `s1` toward the front) and what that is
    /// worth. `None` when the worth exceeds `u64::MAX`.
    fn plan_sweep_down(&self, s1: usize, end: u64, k: u64) -> (r: Option<(u64, u64)>)
        requires
            self.wf(),
            s1 <= self.ticks@.len(),
        ensures
            ({
                let prefix = self.ticks@.subrange(0, s1 as int);
                match r {
                    Some(fv) => fv.0 == sweep_down_filled(prefix, k as int, end) && fv.1
                        == sweep_down_value(prefix, k as int, end),
                    None => sweep_down_value(prefix, k as int, end) > u64::MAX,
                }
            }),
        decreases s1,
    {
        let ghost prefix = self.ticks@.subrange(0, s1 as int);
        if k == 0 || s1 == 0 {
            return Some((0, 0));
        }
        proof {
            assert(prefix.last() == self.ticks@[s1 - 1]);
            assert(prefix.drop_last() =~= self.ticks@.subrange(0, s1 - 1));
        }
        let t0 = self.ticks[s1 - 1].tick_id;
        if t0 <= end {
            return Some((0, 0));
        }
        let tot = self.ticks[s1 - 1].total_orders;
        let f = if k <= tot {
            k
        } else {
            tot
        };
        proof {
            lemma_sum_nonneg(self.ticks@[s1 - 1].orders@);
            lemma_sweep_down_value_nonneg(prefix.drop_last(), k - f, end);
            lemma_sweep_down_filled_bounds(prefix.drop_last(), k - f, end);
            vstd::arithmetic::mul::lemma_mul_nonnegative(f as int, t0 as int);
        }
        let value0 = match f.checked_mul(t0) {
            Some(v) => v,
            None => {
                return None;
            },
        };
        match self.plan_sweep_down(s1 - 1, end, k - f) {
            None => None,
            Some(rest) => {
                match value0.checked_add(rest.1) {
                    Some(v) => Some((f + rest.0, v)),
                    None => None,
                }
            },
        }
    }

    /// Committing pass of a downward sweep: drains the levels at positions
    /// `..s1` from the most expensive downward (bounded below by `end`,
    /// budget `k`), settling every consumed resting order into its owner's
    /// ledger entry, pruning levels whose queues empty, and leaving the
    /// best-bid cursor on the most expensive surviving level (or at the
    /// sentinel when none survives). Returns the budget it could not place.
    fn sweep_bids(&mut self, ledger: &mut Ledger, s1: usize, end: u64, k: u64) -> (leftover: u64)
        requires
            old(self).wf(),
            old(ledger).wf(),
            old(self).owners_in(*old(ledger)),
            s1 <= old(self).ticks@.len(),
            forall|id: u64, c: Currency|
                old(ledger).has(id) ==> old(ledger).bal(id, c) + sweep_down_credit(
                    old(self).ticks@.subrange(0, s1 as int),
                    k as int,
                    end,
                    id,
                    c,
                ) <= u64::MAX,
        ensures
            final(self).wf(),
            final(ledger).wf(),
            final(ledger).count() == old(ledger).count(),
            final(self).owners_in(*final(ledger)),
            leftover == k - sweep_down_filled(
                old(self).ticks@.subrange(0, s1 as int),
                k as int,
                end,
            ),
            sweep_down_shape(old(self).ticks@, final(self).ticks@, s1 as int, k as int, end),
            final(self).next_bid_tick == sweep_down_cursor(
                old(self).ticks@.subrange(0, s1 as int),
                k as int,
                end,
                old(self).next_bid_tick,
            ),
            forall|id: u64, c: Currency|
                old(ledger).has(id) ==> #[trigger] final(ledger).bal(id, c) == old(ledger).bal(
                    id,
                    c,
                ) + sweep_down_credit(
                    old(self).ticks@.subrange(0, s1 as int),
                    k as int,
                    end,
                    id,
                    c,
                ),
            final(self).next_ask_tick == old(self).next_ask_tick,
            final(self).book_id == old(self).book_id,
            final(self).quote_asset == old(self).quote_asset,
            final(self).base_asset == old(self).base_asset,
            final(self).cancellation_map == old(self).cancellation_map,
        decreases s1,
    {
        let n = self.ticks.len();
        let ghost prefix = self.ticks@.subrange(0, s1 as int);
        if k == 0 {
            return 0;
        }
        if s1 == 0 {
            self.next_bid_tick = None;
            return k;
        }
        proof {
            assert(prefix.last() == self.ticks@[s1 - 1]);
            assert(prefix.drop_last() =~= self.ticks@.subrange(0, s1 - 1));
        }
        let t0 = self.ticks[s1 - 1].tick_id;
        if t0 <= end {
            // The first reachable level is already at or below the bound: the
            // walk stops with the cursor naming that untouched level.
            self.next_bid_tick = Some(t0);
            return k;
        }
        let mut level = self.ticks.remove(s1 - 1);
        let ghost tot = sum_quantities(level.orders@);
        proof {
            assert(old(self).ticks@[s1 - 1].level_wf());
            lemma_sum_nonneg(level.orders@);
            assert forall|id: u64, c: Currency| ledger.has(id) implies ledger.bal(id, c)
                + drain_credit(level.orders@, k as int, id, c) <= u64::MAX by {
                if k as int >= tot {
                    lemma_sweep_down_credit_nonneg(prefix.drop_last(), k - tot, end, id, c);
                } else {
                    lemma_drain_credit_nonneg(level.orders@, k as int, id, c);
                }
                assert(old(ledger).bal(id, c) + sweep_down_credit(prefix, k as int, end, id, c)
                    <= u64::MAX);
            }
        }
        let rem = level.fill_tick(ledger, k);
        proof {
            lemma_drain_shape(old(self).ticks@[s1 - 1].orders@, k as int);
        }
        if level.orders.len() == 0 {
            // The queue emptied: the budget covered the whole level, the
            // level stays out of the index, and the walk continues downward.
            // Should the rest of the budget be zero, the cursor must already
            // rest on the next surviving level (or the sentinel): the
            // recursion then returns it unmoved.
            if s1 - 1 > 0 {
                let t_next = self.ticks[s1 - 2].tick_id;
                self.next_bid_tick = Some(t_next);
            } else {
                self.next_bid_tick = None;
            }
            proof {
                assert(k as int >= tot);
                assert(rem == k - tot);
                let mid = self.ticks@;
                assert(mid =~= old(self).ticks@.remove(s1 - 1));
                old(self).ticks@.remove_ensures(s1 - 1);
                assert(mid.subrange(0, s1 - 1) =~= prefix.drop_last());
                assert forall|a: int, b: int| 0 <= a < b < mid.len() implies (
                #[trigger] mid[a]).tick_id < (#[trigger] mid[b]).tick_id by {
                    let pa = if a < s1 - 1 {
                        a
                    } else {
                        a + 1
                    };
                    let pb = if b < s1 - 1 {
                        b
                    } else {
                        b + 1
                    };
                    assert(old(self).ticks@[pa].tick_id < old(self).ticks@[pb].tick_id);
                }
                assert forall|i: int| 0 <= i < mid.len() implies (
                #[trigger] mid[i]).level_wf() by {
                    let pi = if i < s1 - 1 {
                        i
                    } else {
                        i + 1
                    };
                    assert(old(self).ticks@[pi].level_wf());
                }
                assert forall|i: int| 0 <= i < mid.len() implies (#[trigger] mid[i]).owners_in(
                    *ledger,
                ) by {
                    let pi = if i < s1 - 1 {
                        i
                    } else {
                        i + 1
                    };
                    assert(old(self).ticks@[pi].owners_in(*old(ledger)));
                }
                assert forall|id: u64, c: Currency| ledger.has(id) implies ledger.bal(id, c)
                    + sweep_down_credit(prefix.drop_last(), rem as int, end, id, c)
                    <= u64::MAX by {
                    assert(ledger.bal(id, c) == old(ledger).bal(id, c) + drain_credit(
                        old(self).ticks@[s1 - 1].orders@,
                        k as int,
                        id,
                        c,
                    ));
                    assert(old(ledger).bal(id, c) + sweep_down_credit(prefix, k as int, end, id, c)
                        <= u64::MAX);
                }
            }
            let ghost mid_ledger = *ledger;
            let ghost mid_book = *self;
            let leftover = self.sweep_bids(ledger, s1 - 1, end, rem);
            proof {
                let pre = old(self).ticks@;
                let mid = mid_book.ticks@;
                let post = final(self).ticks@;
                old(self).ticks@.remove_ensures(s1 - 1);
                lemma_sweep_down_removed_bounds(prefix.drop_last(), rem as int, end);
                let m2 = sweep_down_removed(prefix.drop_last(), rem as int, end);
                let part2 = sweep_down_partial(prefix.drop_last(), rem as int, end);
                assert(mid.subrange(0, s1 - 1) =~= prefix.drop_last());
                assert(sweep_down_removed(prefix, k as int, end) == 1 + m2);
                assert(sweep_down_partial(prefix, k as int, end) == part2);
                assert(sweep_down_filled(prefix, k as int, end) == tot + sweep_down_filled(
                    prefix.drop_last(),
                    rem as int,
                    end,
                ));
                assert(sweep_down_shape(mid, post, s1 - 1, rem as int, end));
                assert(mid =~= pre.remove(s1 - 1));
                assert forall|i: int| 0 <= i < s1 - (1 + m2) - 1 implies post[i] == pre[i] by {
                    assert(post[i] == mid[i]);
                    assert(pre.remove(s1 - 1)[i] == pre[i]);
                }
                assert forall|i: int|
                    s1 - (1 + m2) <= i < post.len() implies post[i] == pre[i + 1 + m2] by {
                    assert(post[i] == mid[i + m2]);
                    assert(pre.remove(s1 - 1)[i + m2] == pre[i + m2 + 1]);
                    assert(mid[i + m2] == pre[i + m2 + 1]);
                }
                if 0 <= s1 - (1 + m2) - 1 {
                    assert(pre.remove(s1 - 1)[s1 - m2 - 2] == pre[s1 - m2 - 2]);
                    assert(mid[s1 - m2 - 2] == pre[s1 - m2 - 2]);
                }
                assert(sweep_down_shape(pre, post, s1 as int, k as int, end));
                // The cursor lands on the most expensive surviving level:
                // either the recursion placed it there, or — with the budget
                // spent exactly here — it was already set before the
                // recursion.
                if rem > 0 {
                    if m2 < s1 - 1 {
                        assert(prefix.drop_last()[s1 - 2 - m2] == prefix[s1 - 2 - m2]);
                    }
                } else {
                    assert(m2 == 0);
                    if s1 - 1 > 0 {
                        assert(mid[s1 - 2] == prefix[s1 - 2]);
                    }
                }
                assert(final(self).next_bid_tick == sweep_down_cursor(
                    prefix,
                    k as int,
                    end,
                    old(self).next_bid_tick,
                ));
                assert forall|id: u64, c: Currency| old(ledger).has(id) implies
                    #[trigger] final(ledger).bal(id, c) == old(ledger).bal(id, c)
                    + sweep_down_credit(prefix, k as int, end, id, c) by {
                    assert(final(ledger).bal(id, c) == mid_ledger.bal(id, c) + sweep_down_credit(
                        prefix.drop_last(),
                        rem as int,
                        end,
                        id,
                        c,
                    ));
                    assert(mid_ledger.bal(id, c) == old(ledger).bal(id, c) + drain_credit(
                        old(self).ticks@[s1 - 1].orders@,
                        k as int,
                        id,
                        c,
                    ));
                }
            }
            leftover
        } else {
            // The level survives: the budget ran out inside its queue, so the
            // drained level goes back into the index, the walk stops here,
            // and the cursor names this level's price.
            self.ticks.insert(s1 - 1, level);
            self.next_bid_tick = Some(t0);
            proof {
                assert(!(k as int >= tot));
                assert(rem == 0);
                let pre = old(self).ticks@;
                let post = self.ticks@;
                assert(post =~= pre.update(s1 - 1, level));
                assert(sweep_down_removed(prefix, k as int, end) == 0);
                assert(sweep_down_partial(prefix, k as int, end) == k);
                assert(sweep_down_filled(prefix, k as int, end) == k + sweep_down_filled(
                    prefix.drop_last(),
                    0,
                    end,
                ));
                assert forall|a: int, b: int| 0 <= a < b < post.len() implies (
                #[trigger] post[a]).tick_id < (#[trigger] post[b]).tick_id by {
                    assert(pre[a].tick_id < pre[b].tick_id);
                }
                // The surviving level is still a well-formed non-empty queue
                // resting at the same price.
                assert(level.orders@ == drain_orders(pre[s1 - 1].orders@, k as int));
                assert(level.level_wf()) by {
                    assert forall|j: int| 0 <= j < level.orders@.len() implies (
                    #[trigger] level.orders@[j]).quantity >= 1 && level.orders@[j].tick_id
                        == level.tick_id by {
                        let dr = drain_orders(pre[s1 - 1].orders@, k as int);
                        let shift = pre[s1 - 1].orders@.len() - dr.len();
                        if j >= 1 {
                            assert(dr[j] == pre[s1 - 1].orders@[shift + j]);
                        }
                    }
                }
                assert forall|i: int| 0 <= i < post.len() implies (
                #[trigger] post[i]).level_wf() by {
                    if i != s1 - 1 {
                        assert(pre[i].level_wf());
                    }
                }
                assert forall|i: int| 0 <= i < post.len() implies (#[trigger] post[i]).owners_in(
                    *ledger,
                ) by {
                    assert(pre[i].owners_in(*old(ledger)));
                    if i == s1 - 1 {
                        let dr = drain_orders(pre[s1 - 1].orders@, k as int);
                        let shift = pre[s1 - 1].orders@.len() - dr.len();
                        assert forall|j: int| 0 <= j < dr.len() implies ledger.has(
                            (#[trigger] dr[j]).owner,
                        ) by {
                            if j >= 1 {
                                assert(dr[j] == pre[s1 - 1].orders@[shift + j]);
                            }
                            assert(pre[s1 - 1].orders@[shift + j].owner == dr[j].owner);
                        }
                    }
                }
                assert(sweep_down_shape(pre, post, s1 as int, k as int, end));
            }
            0
        }
    }

    /// The levels at or below price `cur`: what a downward sweep may visit,
    /// in index order (the walk runs from the back).
    pub open spec fn prefix_to(self, cur: u64) -> Seq<Tick> {
        self.ticks@.subrange(0, spec_upper_bound(self.ticks@, cur))
    }

    /// No balance that a downward sweep for `order` (budget `k`, bound `end`)
    /// credits can outgrow `u64::MAX`.
    pub open spec fn market_ask_safe(self, ledger: Ledger, order: Order, end: u64, k: u64) -> bool {
        match self.next_bid_tick {
            None => true,
            Some(cur) => {
                let prefix = self.prefix_to(cur);
                let ff = sweep_down_filled(prefix, k as int, end);
                let vv = sweep_down_value(prefix, k as int, end);
                forall|id: u64, c: Currency|
                    ledger.has(id) ==> #[trigger] ledger.bal(id, c) - (
                    if id == order.owner && c == order.debit_currency() {
                        aggr_debit_amount(order, ff, vv)
                    } else {
                        0
                    }) + sweep_down_credit(prefix, k as int, end, id, c) + (
                    if id == order.owner && c == order.credit_currency() {
                        aggr_credit_amount(order, ff, vv)
                    } else {
                        0
                    }) <= u64::MAX
            },
        }
    }

    /// Executes an aggressive order against the bid side: starting at the
    /// best-bid cursor and walking away from it, resting liquidity strictly
    /// above `end_tick` is consumed until `quantity` is exhausted, the bound
    /// is reached, or the side runs out — running out of liquidity is not an
    /// error, the rest of the budget is simply returned. The aggressor's
    /// whole cost is taken first (check-then-commit: if the owner cannot
    /// cover it, `InsufficientFunds` comes back and nothing has changed),
    /// then the levels are drained — each resting order settling at its own
    /// price — and the aggressor is credited with everything gained.
    pub fn run_market_ask(
        &mut self,
        ledger: &mut Ledger,
        order: &Order,
        end_tick: u64,
        quantity: u64,
    ) -> (r: Result<u64, BookError>)
        requires
            old(self).wf(),
            old(ledger).wf(),
            old(self).owners_in(*old(ledger)),
            old(ledger).has(order.owner),
            old(self).market_ask_safe(*old(ledger), *order, end_tick, quantity),
        ensures
            final(self).wf(),
            final(ledger).wf(),
            final(ledger).count() == old(ledger).count(),
            final(self).owners_in(*final(ledger)),
            final(self).next_ask_tick == old(self).next_ask_tick,
            final(self).book_id == old(self).book_id,
            final(self).quote_asset == old(self).quote_asset,
            final(self).base_asset == old(self).base_asset,
            final(self).cancellation_map == old(self).cancellation_map,
            old(self).next_bid_tick is None ==> r == Ok::<u64, BookError>(quantity) && *final(self)
                == *old(self) && *final(ledger) == *old(ledger),
            r is Err ==> r == Err::<u64, BookError>(BookError::InsufficientFunds) && *final(self)
                == *old(self) && *final(ledger) == *old(ledger),
            old(self).next_bid_tick matches Some(cur) ==> {
                let s1 = spec_upper_bound(old(self).ticks@, cur);
                let prefix = old(self).prefix_to(cur);
                let ff = sweep_down_filled(prefix, quantity as int, end_tick);
                let vv = sweep_down_value(prefix, quantity as int, end_tick);
                &&& (r is Err <==> old(ledger).bal(order.owner, order.debit_currency())
                    < aggr_debit_amount(*order, ff, vv))
                &&& (r is Ok ==> {
                    &&& r == Ok::<u64, BookError>((quantity - ff) as u64)
                    &&& sweep_down_shape(
                        old(self).ticks@,
                        final(self).ticks@,
                        s1,
                        quantity as int,
                        end_tick,
                    )
                    &&& final(self).next_bid_tick == sweep_down_cursor(
                        prefix,
                        quantity as int,
                        end_tick,
                        Some(cur),
                    )
                    &&& forall|id: u64, c: Currency|
                        old(ledger).has(id) ==> #[trigger] final(ledger).bal(id, c) == old(
                            ledger,
                        ).bal(id, c) - (
                        if id == order.owner && c == order.debit_currency() {
                            aggr_debit_amount(*order, ff, vv)
                        } else {
                            0
                        }) + sweep_down_credit(prefix, quantity as int, end_tick, id, c) + (
                        if id == order.owner && c == order.credit_currency() {
                            aggr_credit_amount(*order, ff, vv)
                        } else {
                            0
                        })
                })
            },
    {
        let cur = match self.next_bid_tick {
            None => {
                return Ok(quantity);
            },
            Some(c) => c,
        };
        let s1 = self.upper_bound(cur);
        proof {
            lemma_upper_bound(self.ticks@, cur);
        }
        let ghost prefix = self.prefix_to(cur);
        let ghost ff = sweep_down_filled(prefix, quantity as int, end_tick);
        let ghost vv = sweep_down_value(prefix, quantity as int, end_tick);
        proof {
            lemma_sweep_down_filled_bounds(prefix, quantity as int, end_tick);
            lemma_sweep_down_value_nonneg(prefix, quantity as int, end_tick);
        }
        let planned = self.plan_sweep_down(s1, end_tick, quantity);
        let (filled, value) = match planned {
            Some(fv) => fv,
            None => {
                // The sweep would be worth more than any balance can hold.
                match order.order_direction() {
                    OrderDirection::Bid => {
                        return Err(BookError::InsufficientFunds);
                    },
                    OrderDirection::Ask => {
                        // A seller would have to be credited that worth, which
                        // the safety precondition rules out.
                        proof {
                            lemma_sweep_down_credit_nonneg(
                                prefix,
                                quantity as int,
                                end_tick,
                                order.owner,
                                Currency::USD,
                            );
                            assert(old(ledger).bal(order.owner, Currency::USD) - 0
                                + sweep_down_credit(
                                prefix,
                                quantity as int,
                                end_tick,
                                order.owner,
                                Currency::USD,
                            ) + vv <= u64::MAX);
                            assert(false);
                        }
                        return Err(BookError::InsufficientFunds);
                    },
                }
            },
        };
        let debit = match order.order_direction() {
            OrderDirection::Bid => value,
            OrderDirection::Ask => filled,
        };
        match ledger.withdraw(order.owner(), order.debit_asset(), debit) {
            Ok(()) => (),
            Err(e) => {
                return Err(e);
            },
        }
        let ghost mid_ledger = *ledger;
        proof {
            assert forall|id: u64, c: Currency| ledger.has(id) implies ledger.bal(id, c)
                + sweep_down_credit(prefix, quantity as int, end_tick, id, c) <= u64::MAX by {
                assert(old(ledger).bal(id, c) - (
                if id == order.owner && c == order.debit_currency() {
                    aggr_debit_amount(*order, ff, vv)
                } else {
                    0
                }) + sweep_down_credit(prefix, quantity as int, end_tick, id, c) + (
                if id == order.owner && c == order.credit_currency() {
                    aggr_credit_amount(*order, ff, vv)
                } else {
                    0
                }) <= u64::MAX);
            }
        }
        let leftover = self.sweep_bids(ledger, s1, end_tick, quantity);
        let credit = match order.order_direction() {
            OrderDirection::Bid => quantity - leftover,
            OrderDirection::Ask => value,
        };
        proof {
            lemma_sweep_down_credit_nonneg(
                prefix,
                quantity as int,
                end_tick,
                order.owner,
                order.credit_currency(),
            );
            assert(old(ledger).bal(order.owner, order.credit_currency()) - 0 + sweep_down_credit(
                prefix,
                quantity as int,
                end_tick,
                order.owner,
                order.credit_currency(),
            ) + aggr_credit_amount(*order, ff, vv) <= u64::MAX);
        }
        ledger.deposit(order.owner(), order.credit_asset(), credit);
        proof {
            assert forall|id: u64, c: Currency|
                old(ledger).has(id) implies #[trigger] ledger.bal(id, c) == old(ledger).bal(id, c)
                - (
            if id == order.owner && c == order.debit_currency() {
                aggr_debit_amount(*order, ff, vv)
            } else {
                0
            }) + sweep_down_credit(prefix, quantity as int, end_tick, id, c) + (
            if id == order.owner && c == order.credit_currency() {
                aggr_credit_amount(*order, ff, vv)
            } else {
                0
            }) by {
                if !(id == order.owner && c == order.credit_currency()) {
                    assert(ledger.bal(id, c) == mid_ledger.bal(id, c) + sweep_down_credit(
                        prefix,
                        quantity as int,
                        end_tick,
                        id,
                        c,
                    ));
                }
            }
        }
        Ok(leftover)
    }

    /// Handles a limit order: if it crosses the spread (a bid priced at or
    /// above the best ask, an ask priced at or below the best bid), the
    /// opposite side is first swept bounded by the order's own price — a
    /// level exactly at the bound is not consumed — and any remainder then
    /// rests on the book at the order's own price, after its collateral is
    /// escrowed. A non-crossing order rests whole; a fully crossed one rests
    /// nothing.
    #[verifier::rlimit(30)]
    pub fn run_partial_or_full_limit(&mut self, ledger: &mut Ledger, order: &mut Order) -> (r:
        Result<(), BookError>)
        requires
            old(self).wf(),
            old(ledger).wf(),
            old(self).owners_in(*old(ledger)),
            old(ledger).has(old(order).owner),
            old(order).order_type is Limit,
            forall|i: int|
                0 <= i < old(self).ticks@.len() && (#[trigger] old(self).ticks@[i]).tick_id == old(
                    order,
                ).tick_id ==> old(self).ticks@[i].total_orders + old(order).quantity <= u64::MAX,
            old(order).order_direction is Bid && crossing_bid(*old(self), *old(order)) ==> old(
                self,
            ).market_bid_safe(*old(ledger), *old(order), old(order).tick_id, old(order).quantity),
            old(order).order_direction is Ask && crossing_ask(*old(self), *old(order)) ==> old(
                self,
            ).market_ask_safe(*old(ledger), *old(order), old(order).tick_id, old(order).quantity),
        ensures
            final(self).wf(),
            final(ledger).wf(),
            final(ledger).count() == old(ledger).count(),
            final(self).owners_in(*final(ledger)),
            limit_post(
                *old(self),
                *old(ledger),
                *final(self),
                *final(ledger),
                *old(order),
                *final(order),
                r,
            ),
    {
        let tick_id = order.tick_id();
        let quantity = order.quantity();
        match order.order_direction() {
            OrderDirection::Bid => {
                let crossing = match self.next_ask_tick {
                    Some(a) => tick_id >= a,
                    None => false,
                };
                if crossing {
                    let aggressor: Order = *order;
                    let rr = self.run_market_bid(ledger, &aggressor, tick_id, quantity);
                    let ghost mid_b = *self;
                    let ghost mid_l = *ledger;
                    proof {
                        assert(market_bid_post(
                            *old(self),
                            *old(ledger),
                            mid_b,
                            mid_l,
                            *old(order),
                            old(order).tick_id,
                            old(order).quantity,
                            rr,
                        ));
                    }
                    match rr {
                        Err(e) => Err(e),
                        Ok(left) => {
                            if left > 0 {
                                order.set_quantity(left);
                                proof {
                                    let cur = old(self).next_ask_tick->0;
                                    let s0 = spec_lower_bound(old(self).ticks@, cur);
                                    lemma_lower_bound(old(self).ticks@, cur);
                                    lemma_sweep_up_filled_bounds(
                                        old(self).suffix_from(cur),
                                        quantity as int,
                                        tick_id,
                                    );
                                    lemma_sweep_up_shape_capacity(
                                        old(self).ticks@,
                                        mid_b.ticks@,
                                        s0,
                                        quantity as int,
                                        tick_id,
                                        quantity,
                                        tick_id,
                                    );
                                    assert forall|i: int|
                                        0 <= i < self.ticks@.len() && (
                                        #[trigger] self.ticks@[i]).tick_id == order.tick_id implies
                                        self.ticks@[i].total_orders + order.quantity
                                        <= u64::MAX by {
                                        assert(self.ticks@[i].total_orders + quantity <= u64::MAX);
                                    }
                                }
                                let r2 = self.run_place_limit(ledger, order);
                                proof {
                                    assert(place_post(mid_b, mid_l, *self, *ledger, *order, r2));
                                    lemma_refusal_is_funds(r2);
                                }
                                r2
                            } else {
                                Ok(())
                            }
                        },
                    }
                } else {
                    if quantity > 0 {
                        let r2 = self.run_place_limit(ledger, order);
                        proof {
                            lemma_refusal_is_funds(r2);
                        }
                        r2
                    } else {
                        Ok(())
                    }
                }
            },
            OrderDirection::Ask => {
                let crossing = match self.next_bid_tick {
                    Some(b) => tick_id <= b,
                    None => false,
                };
                if crossing {
                    let aggressor: Order = *order;
                    let rr = self.run_market_ask(ledger, &aggressor, tick_id, quantity);
                    let ghost mid_b = *self;
                    let ghost mid_l = *ledger;
                    proof {
                        assert(market_ask_post(
                            *old(self),
                            *old(ledger),
                            mid_b,
                            mid_l,
                            *old(order),
                            old(order).tick_id,
                            old(order).quantity,
                            rr,
                        ));
                    }
                    match rr {
                        Err(e) => Err(e),
                        Ok(left) => {
                            if left > 0 {
                                order.set_quantity(left);
                                proof {
                                    let cur = old(self).next_bid_tick->0;
                                    let s1 = spec_upper_bound(old(self).ticks@, cur);
                                    lemma_upper_bound(old(self).ticks@, cur);
                                    lemma_sweep_down_filled_bounds(
                                        old(self).prefix_to(cur),
                                        quantity as int,
                                        tick_id,
                                    );
                                    lemma_sweep_down_shape_capacity(
                                        old(self).ticks@,
                                        mid_b.ticks@,
                                        s1,
                                        quantity as int,
                                        tick_id,
                                        quantity,
                                        tick_id,
                                    );
                                    assert forall|i: int|
                                        0 <= i < self.ticks@.len() && (
                                        #[trigger] self.ticks@[i]).tick_id == order.tick_id implies
                                        self.ticks@[i].total_orders + order.quantity
                                        <= u64::MAX by {
                                        assert(self.ticks@[i].total_orders + quantity <= u64::MAX);
                                    }
                                }
                                let r2 = self.run_place_limit(ledger, order);
                                proof {
                                    assert(place_post(mid_b, mid_l, *self, *ledger, *order, r2));
                                    lemma_refusal_is_funds(r2);
                                }
                                r2
                            } else {
                                Ok(())
                            }
                        },
                    }
                } else {
                    if quantity > 0 {
                        let r2 = self.run_place_limit(ledger, order);
                        proof {
                            lemma_refusal_is_funds(r2);
                        }
                        r2
                    } else {
                        Ok(())
                    }
                }
            },
        }
    }

    /// Executes a market order: a bid sweeps the ask side with no price cap,
    /// an ask sweeps the bid side with no price floor. Running out of
    /// liquidity is not an error — whatever could not be filled is silently
    /// dropped.
    pub fn run_market_order(&mut self, ledger: &mut Ledger, order: &Order) -> (r: Result<
        (),
        BookError,
    >)
        requires
            old(self).wf(),
            old(ledger).wf(),
            old(self).owners_in(*old(ledger)),
            old(ledger).has(order.owner),
            order.order_direction is Bid ==> old(self).market_bid_safe(
                *old(ledger),
                *order,
                u64::MAX,
                order.quantity,
            ),
            order.order_direction is Ask ==> old(self).market_ask_safe(
                *old(ledger),
                *order,
                0u64,
                order.quantity,
            ),
        ensures
            final(self).wf(),
            final(ledger).wf(),
            final(ledger).count() == old(ledger).count(),
            final(self).owners_in(*final(ledger)),
            r is Err ==> r == Err::<(), BookError>(BookError::InsufficientFunds),
            order.order_direction is Bid ==> exists|rr: Result<u64, BookError>|
                #![trigger market_bid_post(*old(self), *old(ledger), *final(self), *final(ledger), *order, u64::MAX, order.quantity, rr)]
                market_bid_post(
                    *old(self),
                    *old(ledger),
                    *final(self),
                    *final(ledger),
                    *order,
                    u64::MAX,
                    order.quantity,
                    rr,
                ) && (r is Ok <==> rr is Ok),
            order.order_direction is Ask ==> exists|rr: Result<u64, BookError>|
                #![trigger market_ask_post(*old(self), *old(ledger), *final(self), *final(ledger), *order, 0u64, order.quantity, rr)]
                market_ask_post(
                    *old(self),
                    *old(ledger),
                    *final(self),
                    *final(ledger),
                    *order,
                    0u64,
                    order.quantity,
                    rr,
                ) && (r is Ok <==> rr is Ok),
    {
        let remaining_quantity = order.quantity();
        match order.order_direction() {
            OrderDirection::Bid => {
                let rr = self.run_market_bid(ledger, order, u64::MAX, remaining_quantity);
                proof {
                    assert(market_bid_post(
                        *old(self),
                        *old(ledger),
                        *self,
                        *ledger,
                        *order,
                        u64::MAX,
                        order.quantity,
                        rr,
                    ));
                }
                match rr {
                    Ok(_) => Ok(()),
                    Err(e) => Err(e),
                }
            },
            OrderDirection::Ask => {
                let rr = self.run_market_ask(ledger, order, 0u64, remaining_quantity);
                proof {
                    assert(market_ask_post(
                        *old(self),
                        *old(ledger),
                        *self,
                        *ledger,
                        *order,
                        0u64,
                        order.quantity,
                        rr,
                    ));
                }
                match rr {
                    Ok(_) => Ok(()),
                    Err(e) => Err(e),
                }
            },
        }
    }

    /// The sole mutating entry point: dispatches an incoming intent to the
    /// market path or the limit path by its type, and hands any settlement
    /// failure back unchanged.
    pub fn handle_order(&mut self, ledger: &mut Ledger, order: &mut Order) -> (r: Result<
        (),
        BookError,
    >)
        requires
            old(self).wf(),
            old(ledger).wf(),
            old(self).owners_in(*old(ledger)),
            old(ledger).has(old(order).owner),
            old(order).order_type is Market && old(order).order_direction is Bid ==> old(
                self,
            ).market_bid_safe(*old(ledger), *old(order), u64::MAX, old(order).quantity),
            old(order).order_type is Market && old(order).order_direction is Ask ==> old(
                self,
            ).market_ask_safe(*old(ledger), *old(order), 0u64, old(order).quantity),
            old(order).order_type is Limit ==> forall|i: int|
                0 <= i < old(self).ticks@.len() && (#[trigger] old(self).ticks@[i]).tick_id == old(
                    order,
                ).tick_id ==> old(self).ticks@[i].total_orders + old(order).quantity <= u64::MAX,
            old(order).order_type is Limit && old(order).order_direction is Bid && crossing_bid(
                *old(self),
                *old(order),
            ) ==> old(self).market_bid_safe(
                *old(ledger),
                *old(order),
                old(order).tick_id,
                old(order).quantity,
            ),
            old(order).order_type is Limit && old(order).order_direction is Ask && crossing_ask(
                *old(self),
                *old(order),
            ) ==> old(self).market_ask_safe(
                *old(ledger),
                *old(order),
                old(order).tick_id,
                old(order).quantity,
            ),
        ensures
            final(self).wf(),
            final(ledger).wf(),
            final(ledger).count() == old(ledger).count(),
            final(self).owners_in(*final(ledger)),
            old(order).order_type is Market ==> *final(order) == *old(order),
            old(order).order_type is Market && old(order).order_direction is Bid ==> exists|
                rr: Result<u64, BookError>,
            |
                #![trigger market_bid_post(*old(self), *old(ledger), *final(self), *final(ledger), *old(order), u64::MAX, old(order).quantity, rr)]
                market_bid_post(
                    *old(self),
                    *old(ledger),
                    *final(self),
                    *final(ledger),
                    *old(order),
                    u64::MAX,
                    old(order).quantity,
                    rr,
                ) && (r is Ok <==> rr is Ok),
            old(order).order_type is Market && old(order).order_direction is Ask ==> exists|
                rr: Result<u64, BookError>,
            |
                #![trigger market_ask_post(*old(self), *old(ledger), *final(self), *final(ledger), *old(order), 0u64, old(order).quantity, rr)]
                market_ask_post(
                    *old(self),
                    *old(ledger),
                    *final(self),
                    *final(ledger),
                    *old(order),
                    0u64,
                    old(order).quantity,
                    rr,
                ) && (r is Ok <==> rr is Ok),
            old(order).order_type is Limit ==> limit_post(
                *old(self),
                *old(ledger),
                *final(self),
                *final(ledger),
                *old(order),
                *final(order),
                r,
            ),
            r is Err ==> r == Err::<(), BookError>(BookError::InsufficientFunds),
    {
        match order.order_type() {
            OrderType::Market => {
                let aggressor: Order = *order;
                self.run_market_order(ledger, &aggressor)
            },
            OrderType::Limit => {
                let r = self.run_partial_or_full_limit(ledger, order);
                proof {
                    if r is Err {
                        assert(r == Err::<(), BookError>(BookError::InsufficientFunds));
                    }
                }
                r
            },
        }
    }
}

} // verus!
