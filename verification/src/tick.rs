//! A price level: a FIFO queue of resting orders at one discrete price, with
//! an aggregate counter of the quantity resting there.

use vstd::prelude::*;
use std::collections::VecDeque;
use crate::currency::Currency;
use crate::errors::BookError;
use crate::ledger::Ledger;
use crate::order::{Order, OrderType};

verus! {

/// The total quantity resting in a queue of orders.
pub open spec fn sum_quantities(orders: Seq<Order>) -> int
    decreases orders.len(),
{
    if orders.len() == 0 {
        0
    } else {
        orders[0].quantity + sum_quantities(orders.drop_first())
    }
}

/// What is left of a FIFO queue after draining `k` units from its head:
/// whole orders leave from the front, and the first order that more than
/// covers the rest of `k` is reduced in place.
pub open spec fn drain_orders(orders: Seq<Order>, k: int) -> Seq<Order>
    decreases orders.len(),
{
    if k <= 0 || orders.len() == 0 {
        orders
    } else if orders[0].quantity > k {
        orders.update(0, Order { quantity: (orders[0].quantity - k) as u64, ..orders[0] })
    } else {
        drain_orders(orders.drop_first(), k - orders[0].quantity)
    }
}

/// How much of `k` is left over after draining a FIFO queue: zero unless the
/// queue runs out first.
pub open spec fn drain_leftover(orders: Seq<Order>, k: int) -> int
    decreases orders.len(),
{
    if k <= 0 {
        0
    } else if orders.len() == 0 {
        k
    } else if orders[0].quantity > k {
        0
    } else {
        drain_leftover(orders.drop_first(), k - orders[0].quantity)
    }
}

/// What draining `k` units from a FIFO queue credits to account `id` in
/// currency `c`: each order settles its consumed portion at its own resting
/// price, into its own owner's entry.
pub open spec fn drain_credit(orders: Seq<Order>, k: int, id: u64, c: Currency) -> int
    decreases orders.len(),
{
    if k <= 0 || orders.len() == 0 {
        0
    } else {
        let o = orders[0];
        let filled = if o.quantity > k {
            k
        } else {
            o.quantity as int
        };
        let here = if o.owner == id && o.credit_currency() == c {
            o.credit_amount(filled, o.tick_id as int)
        } else {
            0
        };
        if o.quantity > k {
            here
        } else {
            here + drain_credit(orders.drop_first(), k - o.quantity, id, c)
        }
    }
}

/// The resting quantity of a queue is never negative.
pub proof fn lemma_sum_nonneg(orders: Seq<Order>)
    ensures
        sum_quantities(orders) >= 0,
    decreases orders.len(),
{
    if orders.len() > 0 {
        lemma_sum_nonneg(orders.drop_first());
    }
}

/// A drain never takes anything away from anyone: every credit is
/// non-negative.
pub proof fn lemma_drain_credit_nonneg(orders: Seq<Order>, k: int, id: u64, c: Currency)
    ensures
        drain_credit(orders, k, id, c) >= 0,
    decreases orders.len(),
{
    if k > 0 && orders.len() > 0 {
        let o = orders[0];
        let filled = if o.quantity > k {
            k
        } else {
            o.quantity as int
        };
        vstd::arithmetic::mul::lemma_mul_nonnegative(filled, o.tick_id as int);
        if !(o.quantity > k) {
            lemma_drain_credit_nonneg(orders.drop_first(), k - o.quantity, id, c);
        }
    }
}

/// A queue whose orders all hold at least one unit rests at least one unit
/// per order.
pub proof fn lemma_sum_lower(orders: Seq<Order>)
    requires
        forall|i: int| 0 <= i < orders.len() ==> (#[trigger] orders[i]).quantity >= 1,
    ensures
        sum_quantities(orders) >= orders.len(),
    decreases orders.len(),
{
    if orders.len() > 0 {
        lemma_sum_lower(orders.drop_first());
    }
}

/// How a drain reshapes a FIFO queue of orders that each rest at least one
/// unit: the leftover is exactly what the queue cannot cover, the drained
/// queue is a suffix of the starting queue whose head may be reduced in place, and
/// the quantity that leaves the queue is exactly what the drain consumed.
pub proof fn lemma_drain_shape(orders: Seq<Order>, k: int)
    requires
        k >= 0,
        forall|i: int| 0 <= i < orders.len() ==> (#[trigger] orders[i]).quantity >= 1,
    ensures
        drain_leftover(orders, k) == if k >= sum_quantities(orders) {
            k - sum_quantities(orders)
        } else {
            0
        },
        k >= sum_quantities(orders) ==> drain_orders(orders, k).len() == 0,
        sum_quantities(drain_orders(orders, k)) == if k >= sum_quantities(orders) {
            0
        } else {
            sum_quantities(orders) - k
        },
        drain_orders(orders, k).len() <= orders.len(),
        forall|i: int|
            1 <= i < drain_orders(orders, k).len() ==> #[trigger] drain_orders(orders, k)[i]
                == orders[orders.len() - drain_orders(orders, k).len() + i],
        drain_orders(orders, k).len() > 0 ==> drain_orders(orders, k)[0] == (Order {
            quantity: drain_orders(orders, k)[0].quantity,
            ..orders[orders.len() - drain_orders(orders, k).len()]
        }),
        forall|i: int|
            0 <= i < drain_orders(orders, k).len() ==> (#[trigger] drain_orders(orders, k)[i])
                .quantity >= 1,
    decreases orders.len(),
{
    lemma_sum_nonneg(orders);
    lemma_sum_lower(orders);
    if k > 0 && orders.len() > 0 {
        if orders[0].quantity > k {
            let head = Order { quantity: (orders[0].quantity - k) as u64, ..orders[0] };
            assert(drain_orders(orders, k) == orders.update(0, head));
            assert(orders.update(0, head).drop_first() =~= orders.drop_first());
            lemma_sum_nonneg(orders.drop_first());
        } else {
            lemma_drain_shape(orders.drop_first(), k - orders[0].quantity);
        }
    }
}

/// FIFO draining of equal-sized orders: draining `k` from a queue of orders
/// of size `q` each removes exactly `k / q` whole orders, leaves a partial
/// fill of `k % q` on the next one, and returns whatever the queue could not
/// cover.
pub proof fn lemma_fifo_draining(orders: Seq<Order>, q: u64, k: int)
    requires
        q >= 1,
        k >= 0,
        forall|i: int| 0 <= i < orders.len() ==> (#[trigger] orders[i]).quantity == q,
    ensures
        sum_quantities(orders) == orders.len() * q,
        drain_leftover(orders, k) == if k >= orders.len() * q {
            k - orders.len() * q
        } else {
            0
        },
        k >= orders.len() * q ==> drain_orders(orders, k).len() == 0,
        k < orders.len() * q ==> drain_orders(orders, k).len() == orders.len() - k / (q as int),
        k < orders.len() * q ==> drain_orders(orders, k)[0].quantity == q - k % (q as int),
    decreases orders.len(),
{
    lemma_drain_shape(orders, k);
    if orders.len() == 0 {
    } else if k < q {
        lemma_fifo_draining(orders.drop_first(), q, 0);
        assert(sum_quantities(orders) == orders.len() * q) by {
            vstd::arithmetic::mul::lemma_mul_is_distributive_add_other_way(
                q as int,
                1,
                orders.len() - 1,
            );
        }
        vstd::arithmetic::div_mod::lemma_basic_div(k, q as int);
        vstd::arithmetic::div_mod::lemma_small_mod(k as nat, q as nat);
        assert(k < orders.len() * q) by {
            vstd::arithmetic::mul::lemma_mul_inequality(1, orders.len() as int, q as int);
            vstd::arithmetic::mul::lemma_mul_is_commutative(orders.len() as int, q as int);
        }
    } else {
        lemma_fifo_draining(orders.drop_first(), q, k - q);
        assert(sum_quantities(orders) == orders.len() * q) by {
            vstd::arithmetic::mul::lemma_mul_is_distributive_add_other_way(
                q as int,
                1,
                orders.len() - 1,
            );
        }
        assert((k - q) / (q as int) == k / (q as int) - 1) by {
            vstd::arithmetic::div_mod::lemma_div_minus_one(k, q as int);
        }
        assert((k - q) % (q as int) == k % (q as int)) by {
            vstd::arithmetic::div_mod::lemma_mod_sub_multiples_vanish(k, q as int);
        }
    }
}

/// A price level: its discrete price, its FIFO queue (append at the tail,
/// drain from the head — time priority), and the total quantity resting in
/// the queue.
#[derive(Debug)]
pub struct Tick {
    pub tick_id: u64,
    pub orders: VecDeque<Order>,
    pub total_orders: u64,
}

impl Tick {
    /// The aggregate counter always equals the queued quantity.
    pub open spec fn wf(self) -> bool {
        self.total_orders == sum_quantities(self.orders@)
    }

    /// What the book demands of a resting level: a well-formed, non-empty
    /// queue whose orders all rest at this level's price with at least one
    /// unit each.
    pub open spec fn level_wf(self) -> bool {
        &&& self.wf()
        &&& self.orders@.len() >= 1
        &&& forall|j: int|
            0 <= j < self.orders@.len() ==> (#[trigger] self.orders@[j]).quantity >= 1 && self
                .orders@[j].tick_id == self.tick_id
    }

    /// Every queued order belongs to an account of `ledger`.
    pub open spec fn owners_in(self, ledger: Ledger) -> bool {
        forall|i: int|
            0 <= i < self.orders@.len() ==> ledger.has((#[trigger] self.orders@[i]).owner)
    }

    /// An empty level at price `tick_id`.
    pub fn new(tick_id: u64) -> (r: Tick)
        ensures
            r.tick_id == tick_id,
            r.orders@.len() == 0,
            r.total_orders == 0,
            r.wf(),
    {
        Tick { tick_id, orders: VecDeque::new(), total_orders: 0 }
    }

    /// Drains up to `quantity` units from the queue in strict time priority:
    /// the head order is filled (and settled at its own price) first, orders
    /// whose quantity reaches zero are popped, and the walk stops once
    /// `quantity` is exhausted or the queue empties. Returns the leftover
    /// portion of `quantity`.
    pub fn fill_tick(&mut self, ledger: &mut Ledger, quantity: u64) -> (remaining: u64)
        requires
            old(self).wf(),
            old(ledger).wf(),
            old(self).owners_in(*old(ledger)),
            forall|id: u64, c: Currency|
                old(ledger).has(id) ==> old(ledger).bal(id, c) + drain_credit(
                    old(self).orders@,
                    quantity as int,
                    id,
                    c,
                ) <= u64::MAX,
        ensures
            final(self).tick_id == old(self).tick_id,
            final(self).orders@ == drain_orders(old(self).orders@, quantity as int),
            remaining == drain_leftover(old(self).orders@, quantity as int),
            final(self).wf(),
            final(self).total_orders == old(self).total_orders - (quantity - remaining),
            final(ledger).wf(),
            final(ledger).count() == old(ledger).count(),
            forall|id: u64, c: Currency|
                old(ledger).has(id) ==> #[trigger] final(ledger).bal(id, c) == old(ledger).bal(
                    id,
                    c,
                ) + drain_credit(old(self).orders@, quantity as int, id, c),
        decreases old(self).orders@.len(),
    {
        if quantity == 0 {
            return 0;
        }
        let head = self.orders.pop_front();
        match head {
            None => quantity,
            Some(mut head) => {
                proof {
                    lemma_sum_nonneg(self.orders@);
                    lemma_drain_credit_nonneg(
                        self.orders@,
                        quantity - old(self).orders@[0].spec_filled(quantity),
                        head.owner,
                        head.credit_currency(),
                    );
                    assert(old(ledger).bal(head.owner, head.credit_currency()) + head.credit_amount(
                        head.spec_filled(quantity),
                        head.tick_id as int,
                    ) <= u64::MAX);
                }
                let remaining = head.fill_order(ledger, quantity);
                let filled = quantity - remaining;
                self.total_orders = self.total_orders - filled;
                if head.quantity() == 0 {
                    proof {
                        assert forall|id: u64, c: Currency| old(ledger).has(id) implies ledger.bal(
                            id,
                            c,
                        ) + drain_credit(self.orders@, remaining as int, id, c) <= u64::MAX by {
                            lemma_drain_credit_nonneg(self.orders@, remaining as int, id, c);
                        }
                    }
                    let leftover = self.fill_tick(ledger, remaining);
                    leftover
                } else {
                    self.orders.push_front(head);
                    proof {
                        assert(self.orders@ =~= old(self).orders@.update(0, self.orders@[0]));
                        assert(self.orders@.drop_first() =~= old(self).orders@.drop_first());
                    }
                    remaining
                }
            },
        }
    }

    /// Appends a resting order to the tail of the queue. Refuses with
    /// `InvalidOrderType` — leaving the queue unchanged — unless the order is
    /// limit-typed.
    pub fn place_limit(&mut self, order: Order) -> (r: Result<(), BookError>)
        requires
            old(self).wf(),
            order.tick_id == old(self).tick_id,
            order.quantity >= 1,
            old(self).total_orders + order.quantity <= u64::MAX,
        ensures
            final(self).tick_id == old(self).tick_id,
            r is Ok <==> order.order_type is Limit,
            r is Ok ==> final(self).orders@ == old(self).orders@.push(order)
                && final(self).total_orders == old(self).total_orders + order.quantity,
            r is Err ==> *final(self) == *old(self) && r == Err::<(), BookError>(
                BookError::InvalidOrderType,
            ),
            final(self).wf(),
    {
        if !matches!(order.order_type(), OrderType::Limit) {
            return Err(BookError::InvalidOrderType);
        }
        self.orders.push_back(order);
        self.total_orders = self.total_orders + order.quantity;
        proof {
            lemma_sum_snoc(old(self).orders@, order);
        }
        Ok(())
    }
}

/// Appending one order adds exactly its quantity to the queue's total.
pub proof fn lemma_sum_snoc(orders: Seq<Order>, order: Order)
    ensures
        sum_quantities(orders.push(order)) == sum_quantities(orders) + order.quantity,
    decreases orders.len(),
{
    if orders.len() == 0 {
        assert(orders.push(order)[0] == order);
        assert(orders.push(order).drop_first() =~= Seq::<Order>::empty());
        assert(sum_quantities(orders.push(order)) == order.quantity + sum_quantities(
            Seq::<Order>::empty(),
        ));
    } else {
        assert(orders.push(order)[0] == orders[0]);
        assert(orders.push(order).drop_first() =~= orders.drop_first().push(order));
        lemma_sum_snoc(orders.drop_first(), order);
        assert(sum_quantities(orders.push(order)) == orders[0].quantity + sum_quantities(
            orders.drop_first().push(order),
        ));
    }
}

} // verus!
