//! Expense ledger: raw transaction lines become categorized records, and
//! records become a spending report whose every figure is exact in cents.
//!
//! - `ledger`: parsing lines into entries, sorted by date and description.
//! - `category`: keyword rules that give every description a category.
//! - `report`: totals per category, largest expenses, covered dates.
//! - `analyze`: the markdown report and the file name it is stored under.
//! - `trace`: what a report on ingested records says of the ledger's lines,
//!   and what does not depend on their order.
//! - `amount`, `text`, `order`: amounts in cents, text handling, orders.
pub mod amount;
pub mod analyze;
pub mod category;
pub mod ledger;
pub mod order;
pub mod report;
pub mod text;
pub mod trace;

pub use amount::{clean_amount, format_cents};
pub use analyze::{
    analyze_spending, render_report, slugify, slugify_classified, AnalyzeInput, AnalyzeOutput,
    SpendingReport,
};
pub use category::{categorize, categorize_lowered};
pub use ledger::{
    ingest_expenses, looks_like_date, parse_line, IngestError, IngestInput, IngestOutput,
    Ingested, LedgerEntry, Transaction, DATA_REL,
};
pub use report::{
    largest_first, rank_categories, summarize_spending, sums_fit_exec, AnalyzeError,
    CategoryTotal, SpendingSummary,
};
