//! Laws of the ledger protocol.
//!
//! Each proof function states one guarantee of the ledger over the spec
//! functions that the operations' contracts use, for every input its
//! `requires` admits. Together with those contracts they pin down the
//! protocol: what each result code means, which branches write, and what a
//! successful transfer does to the two balances.

use vstd::prelude::*;
use crate::ledger::ACCOUNT_EXISTS;
use crate::ledger::DEST_NOT_FOUND;
use crate::ledger::INSUFFICIENT_FUNDS;
use crate::ledger::ONE_ROW;
use crate::ledger::OVERFLOW;
use crate::ledger::REGISTER_OK;
use crate::ledger::SOURCE_NOT_FOUND;
use crate::ledger::register_code;
use crate::ledger::register_post;
use crate::ledger::spec_select;
use crate::ledger::transfer_code;
use crate::ledger::transfer_post;

verus! {

/// An unregistered account selects as not found, with a zero balance.
pub proof fn lemma_select_unregistered(m: Map<Seq<char>, u128>, a: Seq<char>)
    requires
        !m.contains_key(a),
    ensures
        spec_select(m, a) == (false, 0u128),
{
}

/// Two selects with no write between them return identical results.
pub proof fn lemma_select_idempotent(
    m: Map<Seq<char>, u128>,
    a: Seq<char>,
    r1: (bool, u128),
    r2: (bool, u128),
)
    requires
        r1 == spec_select(m, a),
        r2 == spec_select(m, a),
    ensures
        r1 == r2,
{
}

/// Registering a fresh account succeeds, and the account then selects as
/// found with exactly the registered balance.
pub proof fn lemma_register_fresh(m: Map<Seq<char>, u128>, a: Seq<char>, v: u128)
    requires
        !m.contains_key(a),
    ensures
        register_code(m, a) == REGISTER_OK as int,
        spec_select(register_post(m, a, v), a) == (true, v),
{
}

/// Registering an existing account reports so and leaves every balance,
/// its own included, unchanged.
pub proof fn lemma_register_existing(m: Map<Seq<char>, u128>, a: Seq<char>, v: u128)
    requires
        m.contains_key(a),
    ensures
        register_code(m, a) == ACCOUNT_EXISTS as int,
        register_post(m, a, v) == m,
{
}

/// A transfer from an unregistered source reports so and mutates no
/// account.
pub proof fn lemma_transfer_source_missing(
    m: Map<Seq<char>, u128>,
    a: Seq<char>,
    b: Seq<char>,
    v: u128,
)
    requires
        !m.contains_key(a),
    ensures
        transfer_code(m, a, b, v) == SOURCE_NOT_FOUND as int,
        transfer_post(m, a, b, v) == m,
{
}

/// A transfer to an unregistered destination reports so and mutates no
/// account.
pub proof fn lemma_transfer_dest_missing(
    m: Map<Seq<char>, u128>,
    a: Seq<char>,
    b: Seq<char>,
    v: u128,
)
    requires
        m.contains_key(a),
        !m.contains_key(b),
    ensures
        transfer_code(m, a, b, v) == DEST_NOT_FOUND as int,
        transfer_post(m, a, b, v) == m,
{
}

/// A transfer of more than the source holds reports insufficient funds and
/// mutates no account.
pub proof fn lemma_transfer_insufficient(
    m: Map<Seq<char>, u128>,
    a: Seq<char>,
    b: Seq<char>,
    v: u128,
)
    requires
        m.contains_key(a),
        m.contains_key(b),
        m[a] < v,
    ensures
        transfer_code(m, a, b, v) == INSUFFICIENT_FUNDS as int,
        transfer_post(m, a, b, v) == m,
{
}

/// A transfer whose credit would pass the top of `u128` reports overflow
/// and mutates no account.
pub proof fn lemma_transfer_overflow(m: Map<Seq<char>, u128>, a: Seq<char>, b: Seq<char>, v: u128)
    requires
        m.contains_key(a),
        m.contains_key(b),
        m[a] >= v,
        m[b] + v > u128::MAX,
    ensures
        transfer_code(m, a, b, v) == OVERFLOW as int,
        transfer_post(m, a, b, v) == m,
{
}

/// A transfer between two distinct registered accounts, covered and fitting,
/// returns the storage layer's one-row success code, debits the source by
/// the amount, credits the destination by it, and touches no other account.
pub proof fn lemma_transfer_success(m: Map<Seq<char>, u128>, a: Seq<char>, b: Seq<char>, v: u128)
    requires
        m.contains_key(a),
        m.contains_key(b),
        a != b,
        m[a] >= v,
        m[b] + v <= u128::MAX,
    ensures
        transfer_code(m, a, b, v) == ONE_ROW as int,
        transfer_post(m, a, b, v).dom() == m.dom(),
        transfer_post(m, a, b, v)[a] == m[a] - v,
        transfer_post(m, a, b, v)[b] == m[b] + v,
        forall|k: Seq<char>|
            m.contains_key(k) && k != a && k != b ==> transfer_post(m, a, b, v)[k] == #[trigger] m[k],
{
    assert(transfer_post(m, a, b, v).dom() =~= m.dom());
}

} // verus!
