//! Scenarios of the ledger tools, run against the library.

use agentic_ledger::{categorize, ingest_expenses, IngestError, IngestInput};

#[test]
fn categories_are_rule_based_and_never_silent() {
    assert_eq!(categorize("美团外卖"), "餐饮");
    assert_eq!(categorize("地铁出行"), "交通");
    assert_eq!(categorize("未知商户xyz"), "其他");
}

#[test]
fn ingest_rejects_input_with_no_parseable_lines() {
    let err = ingest_expenses(&IngestInput {
        text: "# comment only\n\nnot a transaction\n".into(),
    })
    .expect_err("empty input must fail");
    assert!(
        err.message().contains("no transactions parsed"),
        "unexpected error: {err:?}"
    );
    // Nothing is produced to store: the error carries no records.
    assert_eq!(err, IngestError::NoTransactions { line_count: 3 });
}
