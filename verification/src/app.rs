//! Session state for an interactive front end: one book, one ledger with the
//! user's account, and the display fields a dashboard reads and writes.

use vstd::prelude::*;
use crate::account::AccountType;
use crate::ledger::Ledger;
use crate::orderbook::Orderbook;

verus! {

/// One session: a running flag, a demonstration counter, the text lines a
/// front end shows, the per-price resting quantities it plots, the command
/// line being typed, the session's book, and the ledger holding the user's
/// account.
#[derive(Debug)]
pub struct App {
    pub running: bool,
    pub counter: u8,
    pub updates: Vec<String>,
    pub positions: Vec<u64>,
    pub command_line: String,
    pub session_book: Orderbook,
    pub ledger: Ledger,
    pub user_account: u64,
}

impl Default for App {
    /// A fresh session: running, a fresh book, and a ledger holding exactly
    /// the user's account with nothing in it.
    fn default() -> (r: Self)
        ensures
            r.running == true,
            r.counter == 0,
            r.updates@.len() == 1,
            r.positions@ == seq![0u64],
            r.command_line@.len() == 0,
            r.session_book.wf(),
            r.session_book.ticks@.len() == 0,
            r.session_book.next_bid_tick is None,
            r.session_book.next_ask_tick is None,
            r.ledger.wf(),
            r.ledger.count() == 1,
            r.ledger.has(r.user_account),
            r.user_account == 0,
    {
        let mut ledger = Ledger::new();
        let user_account = ledger.open_account(AccountType::Individual);
        let mut updates: Vec<String> = Vec::new();
        updates.push(String::new());
        let mut positions: Vec<u64> = Vec::new();
        positions.push(0);
        proof {
            assert(positions@ =~= seq![0u64]);
        }
        App {
            running: true,
            counter: 0,
            updates,
            positions,
            command_line: String::new(),
            session_book: Orderbook::new(0),
            ledger,
            user_account,
        }
    }
}

impl App {
    /// Constructs a fresh session.
    pub fn new() -> (r: Self)
        ensures
            r.running == true,
            r.counter == 0,
            r.session_book.wf(),
            r.session_book.ticks@.len() == 0,
            r.ledger.wf(),
            r.ledger.has(r.user_account),
    {
        Self::default()
    }

    /// Handles the periodic tick of the front end; nothing to do.
    pub fn tick(&self) {
    }

    /// Stops the session.
    pub fn quit(&mut self)
        ensures
            final(self).running == false,
            *final(self) == (App { running: false, ..*old(self) }),
    {
        self.running = false;
    }

    /// Raises the demonstration counter by one, stopping at its ceiling.
    pub fn increment_counter(&mut self)
        ensures
            final(self).counter == if old(self).counter < u8::MAX {
                old(self).counter + 1
            } else {
                old(self).counter as int
            },
            *final(self) == (App { counter: final(self).counter, ..*old(self) }),
    {
        if let Some(res) = self.counter.checked_add(1) {
            self.counter = res;
        }
    }

    /// Lowers the demonstration counter by one, stopping at zero.
    pub fn decrement_counter(&mut self)
        ensures
            final(self).counter == if old(self).counter > 0 {
                old(self).counter - 1
            } else {
                0int
            },
            *final(self) == (App { counter: final(self).counter, ..*old(self) }),
    {
        if let Some(res) = self.counter.checked_sub(1) {
            self.counter = res;
        }
    }
}

} // verus!
