//! The account-asset ledger.
//!
//! `AssetTableTest` orchestrates one storage table of account records
//! (schema: `account` as the key, `asset_value` as the balance in decimal
//! string form) and an append-only event log. `select` looks a balance up,
//! `register` creates an account, `transfer` runs the ordered validation
//! pipeline — source exists, destination exists, funds suffice, the credit
//! does not overflow — and then issues the debit and credit as two
//! independent conditional writes. Each operation's result code, the exact
//! balance map it leaves behind, and the one event it appends are all stated
//! in its contract over the spec functions below.

use vstd::prelude::*;
use crate::decimal::all_digits;
use crate::decimal::dec_digits;
use crate::decimal::dec_val;
use crate::decimal::lemma_dec_digits_val;
use crate::decimal::parse_dec;
use crate::decimal::u128_to_dec;
use crate::table::Entry;
use crate::table::KVField;
use crate::table::KvTable;
use crate::table::field_of;
use vstd::string::StringExecFns;

verus! {

/// `register`: the account was created.
pub const REGISTER_OK: i64 = 0;

/// `register`: the account already existed; nothing was written.
pub const ACCOUNT_EXISTS: i64 = -1;

/// `register`: the storage insert did not write exactly one row.
pub const INSERT_FAILED: i64 = -2;

/// `transfer`: the source account is not registered.
pub const SOURCE_NOT_FOUND: i64 = -1;

/// `transfer`: the destination account is not registered.
pub const DEST_NOT_FOUND: i64 = -2;

/// `transfer`: the source balance is below the requested amount.
pub const INSUFFICIENT_FUNDS: i64 = -3;

/// `transfer`: crediting the destination would pass the top of `u128`.
pub const OVERFLOW: i64 = -4;

/// `transfer`: the debit write did not touch exactly one row.
pub const DEBIT_FAILED: i64 = -5;

/// The storage layer's count of rows written by one successful conditional
/// write; a fully successful `transfer` returns it unchanged.
pub const ONE_ROW: i64 = 1;

/// The record emitted on every terminal branch of `register`.
pub struct RegisterEvent {
    pub ret_code: i64,
    pub account: String,
    pub asset_value: u128,
}

/// The record emitted on every terminal branch of `transfer`.
pub struct TransferEvent {
    pub ret_code: i64,
    pub from: String,
    pub to: String,
    pub value: u128,
}

/// One entry of the ledger's event log.
pub enum Event {
    Register(RegisterEvent),
    Transfer(TransferEvent),
}

/// The mathematical form of an event.
pub enum EventV {
    Register { ret_code: int, account: Seq<char>, asset_value: u128 },
    Transfer { ret_code: int, from: Seq<char>, to: Seq<char>, value: u128 },
}

impl View for Event {
    type V = EventV;

    open spec fn view(&self) -> EventV {
        match self {
            Event::Register(e) => EventV::Register {
                ret_code: e.ret_code as int,
                account: e.account@,
                asset_value: e.asset_value,
            },
            Event::Transfer(e) => EventV::Transfer {
                ret_code: e.ret_code as int,
                from: e.from@,
                to: e.to@,
                value: e.value,
            },
        }
    }
}

/// The name of the key field of the account table.
pub open spec fn account_field() -> Seq<char> {
    "account"@
}

/// The name of the balance field of the account table.
pub open spec fn asset_value_field() -> Seq<char> {
    "asset_value"@
}

/// A stored record is readable: its balance field holds a non-empty digit
/// string whose value fits in `u128`.
pub open spec fn entry_ok(fs: Seq<KVField>) -> bool {
    match field_of(fs, asset_value_field()) {
        Some(s) => s.len() > 0 && all_digits(s) && dec_val(s) <= u128::MAX,
        None => false,
    }
}

/// The balance a stored record carries.
pub open spec fn entry_value(fs: Seq<KVField>) -> u128 {
    match field_of(fs, asset_value_field()) {
        Some(s) => dec_val(s) as u128,
        None => 0,
    }
}

/// What `select` returns on a balance map: found, and the balance or zero.
pub open spec fn spec_select(m: Map<Seq<char>, u128>, a: Seq<char>) -> (bool, u128) {
    (m.contains_key(a), if m.contains_key(a) { m[a] } else { 0u128 })
}

/// The result code of `register`.
pub open spec fn register_code(m: Map<Seq<char>, u128>, a: Seq<char>) -> int {
    if m.contains_key(a) {
        ACCOUNT_EXISTS as int
    } else {
        REGISTER_OK as int
    }
}

/// The balance map `register` leaves behind.
pub open spec fn register_post(m: Map<Seq<char>, u128>, a: Seq<char>, v: u128) -> Map<
    Seq<char>,
    u128,
> {
    if m.contains_key(a) {
        m
    } else {
        m.insert(a, v)
    }
}

/// The result code of `transfer`: the first failing stage of the pipeline,
/// or the storage layer's one-row success code.
pub open spec fn transfer_code(m: Map<Seq<char>, u128>, a: Seq<char>, b: Seq<char>, v: u128) -> int {
    if !m.contains_key(a) {
        SOURCE_NOT_FOUND as int
    } else if !m.contains_key(b) {
        DEST_NOT_FOUND as int
    } else if m[a] < v {
        INSUFFICIENT_FUNDS as int
    } else if m[b] + v > u128::MAX {
        OVERFLOW as int
    } else {
        ONE_ROW as int
    }
}

/// The balance map `transfer` leaves behind: on success the debit is written
/// first and the credit second, each computed from the balances read before
/// either write, so a transfer from an account to itself nets a gain of `v`.
pub open spec fn transfer_post(m: Map<Seq<char>, u128>, a: Seq<char>, b: Seq<char>, v: u128) -> Map<
    Seq<char>,
    u128,
> {
    if transfer_code(m, a, b, v) == ONE_ROW as int {
        m.insert(a, (m[a] - v) as u128).insert(b, (m[b] + v) as u128)
    } else {
        m
    }
}

/// A record built by `register`: the account name first, then the balance
/// rendered in decimal. It is readable and carries the balance.
proof fn lemma_register_entry(fs: Seq<KVField>, v: u128)
    requires
        fs.len() == 2,
        fs[0].key@ == account_field(),
        fs[1].key@ == asset_value_field(),
        fs[1].value@ == dec_digits(v as nat),
    ensures
        entry_ok(fs),
        entry_value(fs) == v,
{
    reveal_strlit("account");
    reveal_strlit("asset_value");
    assert(account_field().len() == 7);
    assert(asset_value_field().len() == 11);
    assert(account_field() != asset_value_field());
    lemma_dec_digits_val(v as nat);
    assert(fs.drop_first().len() == 1);
    assert(fs.drop_first()[0] == fs[1]);
    assert(field_of(fs.drop_first(), asset_value_field()) == Some(fs[1].value@));
}

/// A record built by `update`: the balance field alone, rendered in
/// decimal. It is readable and carries the balance.
proof fn lemma_update_entry(fs: Seq<KVField>, v: u128)
    requires
        fs.len() == 1,
        fs[0].key@ == asset_value_field(),
        fs[0].value@ == dec_digits(v as nat),
    ensures
        entry_ok(fs),
        entry_value(fs) == v,
{
    lemma_dec_digits_val(v as nat);
    assert(field_of(fs, asset_value_field()) == Some(fs[0].value@));
}

/// The ledger: one account table and the log of every event emitted.
pub struct AssetTableTest {
    pub table: KvTable,
    pub events: Vec<Event>,
}

/// A table write under one key moves the balance map by one binding.
proof fn lemma_balances_insert(pre: AssetTableTest, post: AssetTableTest, k: Seq<char>, v: u128)
    requires
        pre.wf(),
        post.table.wf(),
        post.table@.contains_key(k),
        post.table@ == pre.table@.insert(k, post.table@[k]),
        entry_ok(post.table@[k]),
        entry_value(post.table@[k]) == v,
    ensures
        post.wf(),
        post.balances() == pre.balances().insert(k, v),
{
    assert forall|x: Seq<char>| #[trigger] post.table@.contains_key(x) implies entry_ok(
        post.table@[x],
    ) by {
        if x != k {
            assert(pre.table@.contains_key(x));
        }
    }
    assert(post.balances() =~= pre.balances().insert(k, v));
}

/// An untouched table leaves the balance map as it was.
proof fn lemma_balances_same(pre: AssetTableTest, post: AssetTableTest)
    requires
        pre.wf(),
        post.table == pre.table,
    ensures
        post.wf(),
        post.balances() == pre.balances(),
{
    assert(post.balances() =~= pre.balances());
}

/// Appending to the event log appends its view.
proof fn lemma_emitted_push(pre: AssetTableTest, post: AssetTableTest, e: Event)
    requires
        post.events@ == pre.events@.push(e),
    ensures
        post.emitted() == pre.emitted().push(e@),
{
    assert(post.emitted() =~= pre.emitted().push(e@));
}

impl AssetTableTest {
    /// The table has no duplicate rows and every stored record is readable.
    pub open spec fn wf(self) -> bool {
        &&& self.table.wf()
        &&& forall|k: Seq<char>|
            #[trigger] self.table@.contains_key(k) ==> entry_ok(self.table@[k])
    }

    /// The balances the table holds, as a map from account name to value.
    pub open spec fn balances(self) -> Map<Seq<char>, u128> {
        Map::new(
            |k: Seq<char>| self.table@.contains_key(k),
            |k: Seq<char>| entry_value(self.table@[k]),
        )
    }

    /// Every event emitted so far, oldest first.
    pub open spec fn emitted(self) -> Seq<EventV> {
        self.events@.map_values(|e: Event| e@)
    }

    /// A fresh ledger: an empty account table and an empty event log.
    pub fn new() -> (s: Self)
        ensures
            s.wf(),
            s.balances() == Map::<Seq<char>, u128>::empty(),
            s.emitted() == Seq::<EventV>::empty(),
    {
        let s = AssetTableTest { table: KvTable::new(), events: Vec::new() };
        proof {
            assert(s.balances() =~= Map::<Seq<char>, u128>::empty());
            assert(s.emitted() =~= Seq::<EventV>::empty());
        }
        s
    }

    /// Looks the account's balance up: `(false, 0)` for an unregistered
    /// account, `(true, balance)` otherwise. Read-only.
    pub fn select(&self, account: String) -> (r: (bool, u128))
        requires
            self.wf(),
        ensures
            r == spec_select(self.balances(), account@),
    {
        let avk = String::from_str("asset_value");
        match self.table.get(&account) {
            Some(e) => {
                match e.get_field(&avk) {
                    Some(s) => {
                        match parse_dec(s.as_str()) {
                            Some(v) => {
                                proof {
                                    assert(self.balances().contains_key(account@));
                                    assert(self.balances()[account@] == entry_value(
                                        self.table@[account@],
                                    ));
                                }
                                (true, v)
                            },
                            None => unreached(),
                        }
                    },
                    None => unreached(),
                }
            },
            None => {
                proof {
                    assert(!self.balances().contains_key(account@));
                }
                (false, 0)
            },
        }
    }

    /// Registers the account with its initial balance. Writes nothing when
    /// the account exists; appends exactly one registration event either
    /// way, carrying the returned code.
    pub fn register(&mut self, account: String, asset_value: u128) -> (code: i64)
        requires
            old(self).wf(),
        ensures
            final(self).wf(),
            code as int == register_code(old(self).balances(), account@),
            final(self).balances() == register_post(old(self).balances(), account@, asset_value),
            final(self).emitted() == old(self).emitted().push(
                (EventV::Register { ret_code: code as int, account: account@, asset_value }),
            ),
    {
        let ghost acct = account@;
        let ghost pre = *old(self);
        let (ok, _) = self.select(account.clone());
        let code: i64;
        if !ok {
            let mut entry = Entry::new();
            entry.push_field(String::from_str("account"), account.clone());
            entry.push_field(String::from_str("asset_value"), u128_to_dec(asset_value));
            proof {
                lemma_register_entry(entry.fields@, asset_value);
            }
            let result = self.table.insert(account.clone(), entry);
            code = if result == 1 {
                REGISTER_OK
            } else {
                INSERT_FAILED
            };
            proof {
                lemma_balances_insert(pre, *self, acct, asset_value);
            }
        } else {
            code = ACCOUNT_EXISTS;
        }
        let ghost mid = *self;
        self.events.push(Event::Register(RegisterEvent { ret_code: code, account, asset_value }));
        proof {
            lemma_balances_same(mid, *self);
            lemma_emitted_push(mid, *self, self.events@.last());
        }
        code
    }

    /// Sets an account's stored balance by one conditional write keyed on
    /// the account, with no existence check of its own and no event; returns
    /// the storage layer's count of rows written, `1` exactly when the
    /// account exists.
    pub fn update(&mut self, account: String, value: u128) -> (r: i64)
        requires
            old(self).wf(),
        ensures
            final(self).wf(),
            r as int == if old(self).balances().contains_key(account@) {
                ONE_ROW as int
            } else {
                0
            },
            final(self).balances() == if old(self).balances().contains_key(account@) {
                old(self).balances().insert(account@, value)
            } else {
                old(self).balances()
            },
            final(self).emitted() == old(self).emitted(),
    {
        let ghost acct = account@;
        let ghost pre = *old(self);
        let mut entry = Entry::new();
        entry.push_field(String::from_str("asset_value"), u128_to_dec(value));
        proof {
            lemma_update_entry(entry.fields@, value);
        }
        let r = self.table.update(&account, entry);
        proof {
            if pre.table@.contains_key(acct) {
                lemma_balances_insert(pre, *self, acct, value);
            } else {
                lemma_balances_same(pre, *self);
            }
        }
        r
    }

    /// Transfers `value` from `from` to `to` through the ordered pipeline:
    /// source exists, destination exists, funds suffice, the credit fits;
    /// then debits and credits by two independent writes. Appends exactly
    /// one transfer event on every branch, carrying the returned code.
    pub fn transfer(&mut self, from: String, to: String, value: u128) -> (code: i64)
        requires
            old(self).wf(),
        ensures
            final(self).wf(),
            code as int == transfer_code(old(self).balances(), from@, to@, value),
            final(self).balances() == transfer_post(old(self).balances(), from@, to@, value),
            final(self).emitted() == old(self).emitted().push(
                (EventV::Transfer { ret_code: code as int, from: from@, to: to@, value }),
            ),
    {
        let ghost pre = *old(self);
        let (ok, from_value) = self.select(from.clone());
        if !ok {
            let code: i64 = SOURCE_NOT_FOUND;
            self.events.push(
                Event::Transfer(TransferEvent { ret_code: code, from, to, value }),
            );
            proof {
                lemma_balances_same(pre, *self);
                lemma_emitted_push(pre, *self, self.events@.last());
            }
            return code;
        }
        let (ret, to_value) = self.select(to.clone());
        if !ret {
            let code: i64 = DEST_NOT_FOUND;
            self.events.push(
                Event::Transfer(TransferEvent { ret_code: code, from, to, value }),
            );
            proof {
                lemma_balances_same(pre, *self);
                lemma_emitted_push(pre, *self, self.events@.last());
            }
            return code;
        }
        if from_value < value {
            let code: i64 = INSUFFICIENT_FUNDS;
            self.events.push(
                Event::Transfer(TransferEvent { ret_code: code, from, to, value }),
            );
            proof {
                lemma_balances_same(pre, *self);
                lemma_emitted_push(pre, *self, self.events@.last());
            }
            return code;
        }
        if value > u128::MAX - to_value {
            let code: i64 = OVERFLOW;
            self.events.push(
                Event::Transfer(TransferEvent { ret_code: code, from, to, value }),
            );
            proof {
                lemma_balances_same(pre, *self);
                lemma_emitted_push(pre, *self, self.events@.last());
            }
            return code;
        }
        let from_u = self.update(from.clone(), from_value - value);
        if from_u != 1 {
            let code: i64 = DEBIT_FAILED;
            self.events.push(
                Event::Transfer(TransferEvent { ret_code: code, from, to, value }),
            );
            proof {
                lemma_emitted_push(pre, *self, self.events@.last());
            }
            return code;
        }
        let r = self.update(to.clone(), to_value + value);
        let ghost mid = *self;
        self.events.push(Event::Transfer(TransferEvent { ret_code: r, from, to, value }));
        proof {
            lemma_balances_same(mid, *self);
            lemma_emitted_push(mid, *self, self.events@.last());
        }
        r
    }

    /// The events emitted so far, oldest first.
    pub fn event_log(&self) -> (r: &Vec<Event>)
        ensures
            r@.map_values(|e: Event| e@) == self.emitted(),
    {
        &self.events
    }
}

} // verus!
