//! Trade intents: a request carrying a remaining quantity and the id of its
//! owner's ledger entry, together with the settlement legs a fill triggers.

use vstd::prelude::*;
use crate::currency::Currency;
use crate::errors::BookError;
use crate::ledger::Ledger;

verus! {

/// Whether the intent demands immediate execution or rests at a price.
#[derive(PartialEq, Eq, Structural, Copy, Clone, Debug)]
pub enum OrderType {
    Market,
    Limit,
}

/// Which side of the book the intent takes: a Bid buys the traded asset, an
/// Ask sells it.
#[derive(PartialEq, Eq, Structural, Copy, Clone, Debug)]
pub enum OrderDirection {
    Bid,
    Ask,
}

/// A trade request. `tick_id` is the limit price (meaningless, zero by
/// convention, for market orders); `owner` names the owning account in the
/// ledger; `quantity` is the remaining unfilled amount and only ever
/// decreases through fills.
#[derive(PartialEq, Eq, Structural, Copy, Clone, Debug)]
pub struct Order {
    pub order_id: u64,
    pub tick_id: u64,
    pub book_id: u64,
    pub owner: u64,
    pub order_type: OrderType,
    pub order_direction: OrderDirection,
    pub quantity: u64,
}

impl Order {
    /// The currency a fill credits to this order's owner: a Bid receives the
    /// traded asset, an Ask receives the counter asset.
    pub open spec fn credit_currency(self) -> Currency {
        match self.order_direction {
            OrderDirection::Bid => Currency::OSMO,
            OrderDirection::Ask => Currency::USD,
        }
    }

    /// The currency a fill debits from this order's owner: a Bid pays the
    /// counter asset, an Ask hands over the traded asset.
    pub open spec fn debit_currency(self) -> Currency {
        match self.order_direction {
            OrderDirection::Bid => Currency::USD,
            OrderDirection::Ask => Currency::OSMO,
        }
    }

    /// What a fill of `amount` units at `price` per unit credits the owner.
    pub open spec fn credit_amount(self, amount: int, price: int) -> int {
        match self.order_direction {
            OrderDirection::Bid => amount,
            OrderDirection::Ask => amount * price,
        }
    }

    /// What a fill of `amount` units at `price` per unit costs the owner.
    pub open spec fn debit_amount(self, amount: int, price: int) -> int {
        match self.order_direction {
            OrderDirection::Bid => amount * price,
            OrderDirection::Ask => amount,
        }
    }

    /// How much of `fill_quantity` this order can consume: everything, or
    /// its whole remaining quantity if that is smaller.
    pub open spec fn spec_filled(self, fill_quantity: u64) -> int {
        if self.quantity > fill_quantity {
            fill_quantity as int
        } else {
            self.quantity as int
        }
    }

    pub fn new(
        order_id: u64,
        tick_id: u64,
        book_id: u64,
        owner: u64,
        order_type: OrderType,
        order_direction: OrderDirection,
        quantity: u64,
    ) -> (r: Order)
        ensures
            r == (Order { order_id, tick_id, book_id, owner, order_type, order_direction, quantity }),
    {
        Order { order_id, tick_id, book_id, owner, order_type, order_direction, quantity }
    }

    /// Consumes up to `fill_quantity` from the remaining quantity and settles
    /// the consumed portion at this order's own resting price (`tick_id`):
    /// passive orders are always filled at their own posted price. Returns
    /// the unconsumed remainder of `fill_quantity`.
    pub fn fill_order(&mut self, ledger: &mut Ledger, fill_quantity: u64) -> (remainder: u64)
        requires
            old(ledger).wf(),
            old(ledger).has(old(self).owner),
            old(self).credit_amount(old(self).spec_filled(fill_quantity), old(self).tick_id as int)
                <= u64::MAX,
            old(ledger).bal(old(self).owner, old(self).credit_currency()) + old(
                self,
            ).credit_amount(old(self).spec_filled(fill_quantity), old(self).tick_id as int)
                <= u64::MAX,
        ensures
            remainder == if old(self).quantity > fill_quantity {
                0int
            } else {
                fill_quantity - old(self).quantity
            },
            final(self).quantity == old(self).quantity - (fill_quantity - remainder),
            *final(self) == (Order { quantity: final(self).quantity, ..*old(self) }),
            final(ledger).wf(),
            final(ledger).count() == old(ledger).count(),
            final(ledger).bal(old(self).owner, old(self).credit_currency()) == old(ledger).bal(
                old(self).owner,
                old(self).credit_currency(),
            ) + old(self).credit_amount(
                old(self).spec_filled(fill_quantity),
                old(self).tick_id as int,
            ),
            forall|i: u64, c: Currency|
                old(ledger).has(i) && !(i == old(self).owner && c == old(self).credit_currency())
                    ==> #[trigger] final(ledger).bal(i, c) == old(ledger).bal(i, c),
    {
        let remaining_quantity: u64;
        if self.quantity > fill_quantity {
            self.quantity = self.quantity - fill_quantity;
            remaining_quantity = 0;
        } else {
            remaining_quantity = fill_quantity - self.quantity;
            self.quantity = 0;
        }

        let amount_filled = fill_quantity - remaining_quantity;
        let price_per_sold_unit = self.tick_id;
        self.distribute_filled_assets(ledger, amount_filled, price_per_sold_unit);

        remaining_quantity
    }

    /// Administrative resize, used only when converting a partially crossed
    /// order into its resting remainder before queuing.
    pub fn set_quantity(&mut self, quantity: u64)
        ensures
            *final(self) == (Order { quantity, ..*old(self) }),
    {
        self.quantity = quantity;
    }

    /// Credits the owner with what the fill bought: a Bid receives
    /// `amount_filled` units of the traded asset, an Ask receives
    /// `amount_filled * price_per_filled_unit` of the counter asset.
    pub fn distribute_filled_assets(
        &self,
        ledger: &mut Ledger,
        amount_filled: u64,
        price_per_filled_unit: u64,
    )
        requires
            old(ledger).wf(),
            old(ledger).has(self.owner),
            self.credit_amount(amount_filled as int, price_per_filled_unit as int) <= u64::MAX,
            old(ledger).bal(self.owner, self.credit_currency()) + self.credit_amount(
                amount_filled as int,
                price_per_filled_unit as int,
            ) <= u64::MAX,
        ensures
            final(ledger).wf(),
            final(ledger).count() == old(ledger).count(),
            final(ledger).bal(self.owner, self.credit_currency()) == old(ledger).bal(
                self.owner,
                self.credit_currency(),
            ) + self.credit_amount(amount_filled as int, price_per_filled_unit as int),
            forall|i: u64, c: Currency|
                old(ledger).has(i) && !(i == self.owner && c == self.credit_currency())
                    ==> #[trigger] final(ledger).bal(i, c) == old(ledger).bal(i, c),
    {
        match self.order_direction {
            OrderDirection::Bid => {
                ledger.deposit(self.owner, Currency::OSMO, amount_filled);
            },
            OrderDirection::Ask => {
                ledger.deposit(
                    self.owner,
                    Currency::USD,
                    amount_filled * price_per_filled_unit,
                );
            },
        }
    }

    /// Debits the owner the resources that back the trade: a Bid pays
    /// `amount_filled * price_per_filled_unit` of the counter asset, an Ask
    /// hands over `amount_filled` of the traded asset. Refuses with
    /// `InsufficientFunds` — changing nothing — when the owner cannot cover
    /// it (a cost beyond `u64::MAX` can never be covered).
    pub fn withdraw_deposited_assets(
        &self,
        ledger: &mut Ledger,
        amount_filled: u64,
        price_per_filled_unit: u64,
    ) -> (r: Result<(), BookError>)
        requires
            old(ledger).wf(),
            old(ledger).has(self.owner),
        ensures
            final(ledger).wf(),
            final(ledger).count() == old(ledger).count(),
            r is Ok <==> old(ledger).bal(self.owner, self.debit_currency())
                >= self.debit_amount(amount_filled as int, price_per_filled_unit as int),
            r is Ok ==> final(ledger).bal(self.owner, self.debit_currency()) == old(ledger).bal(
                self.owner,
                self.debit_currency(),
            ) - self.debit_amount(amount_filled as int, price_per_filled_unit as int),
            r is Err ==> *final(ledger) == *old(ledger) && r == Err::<(), BookError>(
                BookError::InsufficientFunds,
            ),
            forall|i: u64, c: Currency|
                old(ledger).has(i) && !(i == self.owner && c == self.debit_currency())
                    ==> #[trigger] final(ledger).bal(i, c) == old(ledger).bal(i, c),
    {
        match self.order_direction {
            OrderDirection::Bid => {
                match amount_filled.checked_mul(price_per_filled_unit) {
                    Some(cost) => ledger.withdraw(self.owner, Currency::USD, cost),
                    None => Err(BookError::InsufficientFunds),
                }
            },
            OrderDirection::Ask => ledger.withdraw(self.owner, Currency::OSMO, amount_filled),
        }
    }

    /// The currency a fill credits to this order's owner.
    pub fn credit_asset(&self) -> (c: Currency)
        ensures
            c == self.credit_currency(),
    {
        match self.order_direction {
            OrderDirection::Bid => Currency::OSMO,
            OrderDirection::Ask => Currency::USD,
        }
    }

    /// The currency a fill debits from this order's owner.
    pub fn debit_asset(&self) -> (c: Currency)
        ensures
            c == self.debit_currency(),
    {
        match self.order_direction {
            OrderDirection::Bid => Currency::USD,
            OrderDirection::Ask => Currency::OSMO,
        }
    }

    /// The remaining unfilled quantity.
    pub fn quantity(&self) -> (r: u64)
        ensures
            r == self.quantity,
    {
        self.quantity
    }

    /// The limit price this order rests at (zero for market orders).
    pub fn tick_id(&self) -> (r: u64)
        ensures
            r == self.tick_id,
    {
        self.tick_id
    }

    /// The id of the owning ledger account.
    pub fn owner(&self) -> (r: u64)
        ensures
            r == self.owner,
    {
        self.owner
    }

    /// Market or limit.
    pub fn order_type(&self) -> (r: OrderType)
        ensures
            r == self.order_type,
    {
        self.order_type
    }

    /// Bid or ask.
    pub fn order_direction(&self) -> (r: OrderDirection)
        ensures
            r == self.order_direction,
    {
        self.order_direction
    }
}

} // verus!
