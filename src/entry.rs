use vstd::prelude::*;
use crate::date::JournalDate;

verus! {

/// One ledger line item. Amounts are fixed-point, in minor currency units
/// (cents), so that the derived total is exact.
#[derive(Clone, Copy, Debug, PartialEq, Eq, Structural)]
pub struct JournalEntry {
    pub id: u32,
    pub journal_date: JournalDate,
    pub account_id: u32,
    pub amount_debt: i64,
    pub amount_credit: i64,
    /// `amount_debt - amount_credit` on every entry that the store has added or updated.
    pub total: i128,
    pub reconciled: bool,
    /// The tombstone: a deleted entry stays stored but is hidden from every lookup.
    pub is_deleted: bool,
}

/// The difference of the two amounts, which a stored entry carries as its total.
pub open spec fn balance(e: JournalEntry) -> int {
    e.amount_debt - e.amount_credit
}

/// `e` as the store keeps it under identifier `id`: total recomputed, not deleted.
pub open spec fn stamped(e: JournalEntry, id: u32) -> JournalEntry {
    JournalEntry { id, total: balance(e) as i128, is_deleted: false, ..e }
}

/// Whether `e` is the visible entry with identifier `id`.
pub open spec fn is_live(e: JournalEntry, id: u32) -> bool {
    e.id == id && !e.is_deleted
}

impl JournalEntry {
    /// A fresh entry as a caller hands it to the store: identifier 0, total
    /// already equal to the difference of the amounts, not deleted.
    pub fn new(
        journal_date: JournalDate,
        account_id: u32,
        amount_debt: i64,
        amount_credit: i64,
        reconciled: bool,
    ) -> (r: JournalEntry)
        ensures
            r == stamped(
                JournalEntry {
                    id: 0,
                    journal_date,
                    account_id,
                    amount_debt,
                    amount_credit,
                    total: 0,
                    reconciled,
                    is_deleted: false,
                },
                0,
            ),
    {
        JournalEntry {
            id: 0,
            journal_date,
            account_id,
            amount_debt,
            amount_credit,
            total: amount_debt as i128 - amount_credit as i128,
            reconciled,
            is_deleted: false,
        }
    }

    /// This entry under identifier `id`, with its total recomputed and its
    /// tombstone cleared.
    pub fn stamp(self, id: u32) -> (r: JournalEntry)
        ensures
            r == stamped(self, id),
    {
        JournalEntry {
            id,
            total: self.amount_debt as i128 - self.amount_credit as i128,
            is_deleted: false,
            ..self
        }
    }
}

} // verus!
