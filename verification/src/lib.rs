//! A minimal account-asset ledger over a keyed storage table.
//!
//! The ledger keeps one table of account records, each mapping field names to
//! scalar values; balances are stored in their decimal string form and the
//! ledger converts between string and integer at every read and write
//! boundary. Three operations are offered: `select` looks a balance up,
//! `register` creates an account, and `transfer` moves value between two
//! accounts through an ordered pipeline of existence checks, a funds check,
//! an overflow check, and two conditional writes. Every terminal branch of
//! `register` and `transfer` appends exactly one event to the ledger's event
//! log, carrying the operation's result code.

pub mod decimal;
pub mod laws;
pub mod ledger;
pub mod table;

pub use ledger::AssetTableTest;
pub use ledger::Event;
pub use ledger::EventV;
pub use ledger::RegisterEvent;
pub use ledger::TransferEvent;
pub use table::Entry;
pub use table::KVField;
pub use table::KvTable;
pub use decimal::dec_digits;
pub use decimal::dec_val;
pub use decimal::all_digits;
pub use decimal::parse_dec;
pub use decimal::u128_to_dec;
