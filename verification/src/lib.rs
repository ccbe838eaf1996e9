//! Expense tracking and per-diem amortisation.
//!
//! A free-form line such as `"Rent 1729€ 1m12x 010118 #rent"` is parsed into a
//! structured expense record; each record carries a recurrence pattern (its
//! lifetime), a positive decimal amount and a start date, and derives from
//! them an end date, a normalised daily cost and a progress ratio.  Records
//! are collected in a content-addressed store that deduplicates by a digest of
//! the identity fields and answers aggregate queries (total cost of life on a
//! date, per-expense summary, per-tag rollup).

pub mod date;
pub mod decimal;
pub mod error;
pub mod interaction;
pub mod laws;
pub mod ledger;
pub mod lifetime;
pub mod record;
pub mod text;

pub use date::date;
pub use date::date_from_str;
pub use date::today;
pub use date::Date;
pub use decimal::parse_amount;
pub use decimal::Decimal;
pub use error::CostOfLifeError;
pub use interaction::Feat;
pub use interaction::PolarAnswer;
pub use ledger::cost_of_life;
pub use ledger::DataStore;
pub use ledger::SummaryRow;
pub use ledger::TagRow;
pub use lifetime::Lifetime;
pub use record::now_local;
pub use record::TxRecord;
