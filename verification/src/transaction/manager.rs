//! The transaction manager: it keeps every transaction that was begun,
//! by its identifier, in a concurrent map.

use vstd::prelude::*;
use crate::transaction::error::TransactionError;
use crate::transaction::mvcc::{IsolationLevel, Transaction, TransactionId, TransactionStatus};
use crate::types::{show_uuid, FIXED_BITS, RANDOM_MARK};

verus! {

/// `dashmap::DashMap`: a concurrent map, of which nothing is known but
/// through the functions below.
#[verifier::external_type_specification]
#[verifier::external_body]
#[verifier::reject_recursive_types(K)]
#[verifier::reject_recursive_types(V)]
#[verifier::reject_recursive_types(S)]
pub struct ExDashMap<K, V, S>(dashmap::DashMap<K, V, S>);

/// The concurrent map that keeps the transactions, by the number of their
/// identifier.
pub type TransactionTable = dashmap::DashMap<u128, Transaction>;

/// The transactions that a map holds, by the number of their identifier.
pub uninterp spec fn transactions_in(table: TransactionTable) -> Map<u128, Transaction>;

/// `DashMap::new`: a map without entries.
#[verifier::external_body]
fn empty_table() -> (table: TransactionTable)
    ensures
        forall|key: u128| !transactions_in(table).contains_key(key),
{
    dashmap::DashMap::new()
}

/// `DashMap::insert`: the map holds the value under the key, in the place
/// of what the key had, and every other entry as before.
#[verifier::external_body]
fn table_insert(table: &mut TransactionTable, key: u128, value: Transaction)
    ensures
        transactions_in(*final(table)) == transactions_in(*old(table)).insert(key, value),
{
    table.insert(key, value);
}

/// `DashMap::get`: a copy of the value that the map holds under the key,
/// if it holds one.
#[verifier::external_body]
fn table_get(table: &TransactionTable, key: u128) -> (found: Option<Transaction>)
    ensures
        found == if transactions_in(*table).contains_key(key) {
            Some(transactions_in(*table)[key])
        } else {
            None::<Transaction>
        },
{
    table.get(&key).map(|entry| *entry.value())
}

/// Transaction manager.
pub struct TransactionManager {
    active_transactions: TransactionTable,
}

impl View for TransactionManager {
    type V = Map<u128, Transaction>;

    /// The transactions that were begun, by the number of their identifier.
    closed spec fn view(&self) -> Map<u128, Transaction> {
        transactions_in(self.active_transactions)
    }
}

impl TransactionManager {
    /// A manager without transactions.
    pub fn new() -> (manager: Self)
        ensures
            manager@ == Map::<u128, Transaction>::empty(),
    {
        let manager = TransactionManager { active_transactions: empty_table() };
        assert(manager@ =~= Map::<u128, Transaction>::empty());
        manager
    }

    /// Begins a transaction with a random identifier, started now, and
    /// returns its identifier.
    pub fn begin(&mut self, isolation_level: IsolationLevel) -> (r: Result<
        TransactionId,
        TransactionError,
    >)
        ensures
            r matches Ok(id) && final(self)@.contains_key(id.0) && final(self)@ == old(self)@.insert(
                id.0,
                final(self)@[id.0],
            ) && final(self)@[id.0] == (Transaction {
                id,
                isolation_level,
                start_timestamp: final(self)@[id.0].start_timestamp,
                status: TransactionStatus::Active,
            }) && id.0 & FIXED_BITS == RANDOM_MARK,
    {
        let txn = Transaction::new(isolation_level);
        Ok(self.register(txn))
    }

    /// Keeps a transaction under its identifier and returns the identifier.
    pub fn register(&mut self, txn: Transaction) -> (id: TransactionId)
        ensures
            id == txn.id,
            final(self)@ == old(self)@.insert(txn.id.0, txn),
    {
        table_insert(&mut self.active_transactions, txn.id.0, txn);
        txn.id
    }

    /// Commits an active transaction. A transaction that is unknown, or
    /// that is committed or aborted already, is reported as not found.
    pub fn commit(&mut self, txn_id: TransactionId) -> (r: Result<(), TransactionError>)
        ensures
            match r {
                Ok(_) => {
                    &&& old(self)@.contains_key(txn_id.0)
                    &&& old(self)@[txn_id.0].status == TransactionStatus::Active
                    &&& final(self)@ == old(self)@.insert(
                        txn_id.0,
                        Transaction {
                            status: TransactionStatus::Committed,
                            ..old(self)@[txn_id.0]
                        },
                    )
                },
                Err(e) => {
                    &&& e is NotFound
                    &&& !old(self)@.contains_key(txn_id.0) || old(self)@[txn_id.0].status
                        != TransactionStatus::Active
                    &&& final(self)@ == old(self)@
                },
            },
    {
        match table_get(&self.active_transactions, txn_id.0) {
            Some(txn) => {
                if !txn.is_active() {
                    return Err(TransactionError::NotFound(show_uuid(txn_id.0)));
                }
                let committed = Transaction { status: TransactionStatus::Committed, ..txn };
                table_insert(&mut self.active_transactions, txn_id.0, committed);
                Ok(())
            },
            None => Err(TransactionError::NotFound(show_uuid(txn_id.0))),
        }
    }

    /// Aborts a transaction, whatever its state. A transaction that is
    /// unknown is reported as not found.
    pub fn abort(&mut self, txn_id: TransactionId) -> (r: Result<(), TransactionError>)
        ensures
            match r {
                Ok(_) => {
                    &&& old(self)@.contains_key(txn_id.0)
                    &&& final(self)@ == old(self)@.insert(
                        txn_id.0,
                        Transaction { status: TransactionStatus::Aborted, ..old(self)@[txn_id.0] },
                    )
                },
                Err(e) => {
                    &&& e is NotFound
                    &&& !old(self)@.contains_key(txn_id.0)
                    &&& final(self)@ == old(self)@
                },
            },
    {
        match table_get(&self.active_transactions, txn_id.0) {
            Some(txn) => {
                let aborted = Transaction { status: TransactionStatus::Aborted, ..txn };
                table_insert(&mut self.active_transactions, txn_id.0, aborted);
                Ok(())
            },
            None => Err(TransactionError::NotFound(show_uuid(txn_id.0))),
        }
    }

    /// The transaction with this identifier, if one was begun.
    pub fn get_transaction(&self, txn_id: &TransactionId) -> (found: Option<Transaction>)
        ensures
            found == if self@.contains_key(txn_id.0) {
                Some(self@[txn_id.0])
            } else {
                None::<Transaction>
            },
    {
        table_get(&self.active_transactions, txn_id.0)
    }
}

} // verus!
