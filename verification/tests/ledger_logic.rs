//! Behaviour of parsing, categorizing, summarizing and rendering, on
//! concrete values.

use agentic_ledger::{
    analyze_spending, categorize, categorize_lowered, clean_amount, format_cents, ingest_expenses,
    largest_first, looks_like_date, parse_line, rank_categories, render_report, slugify,
    slugify_classified,
    summarize_spending, sums_fit_exec, AnalyzeError, AnalyzeInput, CategoryTotal, IngestError,
    IngestInput, LedgerEntry, SpendingSummary, Transaction,
};

const SAMPLE: &str = "2026-09-01 美团外卖 45.90\n2026-09-02 地铁 6.00\n2026-09-03 中石化加油 300.00\n";

/// Decimal text to cents, the floating-point way the tool converts amounts.
fn cents_of(text: &str) -> i64 {
    let value: f64 = text.parse().unwrap();
    (value * 100.0).round() as i64
}

/// A share of a total as a percentage with one decimal.
fn percent_of(part: i64, whole: i64) -> String {
    let pct = (part as f64 / whole as f64) * 100.0;
    format!("{pct:.1}%")
}

fn records_of(entries: Vec<LedgerEntry>) -> Vec<Transaction> {
    entries
        .into_iter()
        .map(|e| {
            let cents = cents_of(&e.amount_text);
            e.into_transaction(cents)
        })
        .collect()
}

fn tx(date: &str, description: &str, cents: i64, category: &str) -> Transaction {
    Transaction {
        date: date.to_string(),
        description: description.to_string(),
        amount_cents: cents,
        category: category.to_string(),
    }
}

fn percents(summary: &SpendingSummary) -> Vec<String> {
    summary
        .ranked
        .iter()
        .map(|c| percent_of(c.cents, summary.total_cents))
        .collect()
}

/// The report as the format strings of the tool lay it out.
fn expected_report(label: &str, summary: &SpendingSummary) -> String {
    let mut out = String::new();
    out.push_str(&format!("# 消费分析报告：{label}\n\n"));
    out.push_str(&format!(
        "- 统计区间：{} ~ {}\n",
        summary.first_date, summary.last_date
    ));
    out.push_str(&format!("- 交易笔数：{}\n", summary.record_count));
    out.push_str(&format!("- 总支出：{}\n\n", format_cents(summary.total_cents)));
    out.push_str("## 分类汇总\n\n");
    out.push_str("| 分类 | 金额 | 占比 | 笔数 |\n|---|---:|---:|---:|\n");
    for c in &summary.ranked {
        let share = if summary.total_cents == 0 {
            "—".to_string()
        } else {
            percent_of(c.cents, summary.total_cents)
        };
        out.push_str(&format!(
            "| {} | {} | {} | {} |\n",
            c.category,
            format_cents(c.cents),
            share,
            c.count
        ));
    }
    out.push_str("\n## 金额最高的 5 笔\n\n");
    for t in summary.top.iter().take(5) {
        out.push_str(&format!(
            "- {} {} · {} · {}\n",
            t.date,
            t.description,
            format_cents(t.amount_cents),
            t.category
        ));
    }
    out.push_str(
        "\n---\n每行的金额、占比与笔数均可由 data/transactions.json 逐条核对；\
         分类为规则匹配，规则见 agentic_ledger::categorize。\n",
    );
    out
}

fn path_matches_glob(path: &str, pattern: &str) -> bool {
    let (prefix, rest) = match pattern.split_once('*') {
        Some(pair) => pair,
        None => return path == pattern,
    };
    path.starts_with(prefix) && path[prefix.len()..].ends_with(rest)
}

// ---- the whole pipeline ---------------------------------------------------

#[test]
fn pipeline_produces_a_checkable_report() {
    let ingested = ingest_expenses(&IngestInput { text: SAMPLE.into() })
        .expect("ingest must succeed on valid input");
    assert_eq!(ingested.output.record_count, 3);
    assert_eq!(ingested.output.skipped_lines, 0);
    assert_eq!(ingested.output.data_path, "data/transactions.json");

    let records = records_of(ingested.entries);
    assert!(sums_fit_exec(&records));
    let summary = summarize_spending(&records).expect("analyze must succeed");
    let shares = percents(&summary);
    let report = analyze_spending(
        &summary,
        &AnalyzeInput {
            label: "September W1".into(),
        },
        &shares,
    );
    let body = &report.rendered;
    assert!(body.starts_with("# 消费分析报告：September W1"));
    assert_eq!(report.output.total_cents, 35_190);
    assert_eq!(report.output.record_count, 3);
    assert!(body.contains("¥351.90"), "total must appear in the report");
    assert!(body.len() >= 256, "must satisfy file_size_min:256");
    assert_eq!(report.output.artifact_path, "reports/spending-september-w1.md");
    assert!(path_matches_glob(
        &report.output.artifact_path,
        "reports/spending-*.md"
    ));
    assert_eq!(*body, expected_report("September W1", &summary));
}

#[test]
fn sample_report_rows_are_exact() {
    let ingested = ingest_expenses(&IngestInput { text: SAMPLE.into() }).unwrap();
    let records = records_of(ingested.entries);
    let summary = summarize_spending(&records).unwrap();
    assert_eq!(summary.first_date, "2026-09-01");
    assert_eq!(summary.last_date, "2026-09-03");
    assert_eq!(
        summary.ranked,
        vec![
            CategoryTotal { category: "交通".into(), cents: 30_600, count: 2 },
            CategoryTotal { category: "餐饮".into(), cents: 4_590, count: 1 },
        ]
    );
    let report = analyze_spending(&summary, &AnalyzeInput { label: "W1".into() }, &percents(&summary));
    assert!(report.rendered.contains("| 交通 | ¥306.00 | 87.0% | 2 |\n"));
    assert!(report.rendered.contains("| 餐饮 | ¥45.90 | 13.0% | 1 |\n"));
    assert!(report
        .rendered
        .contains("- 2026-09-03 中石化加油 · ¥300.00 · 交通\n- 2026-09-01 美团外卖 · ¥45.90 · 餐饮\n- 2026-09-02 地铁 · ¥6.00 · 交通\n"));
}

// ---- ingesting -------------------------------------------------------------

#[test]
fn ingest_sorts_by_date_then_description_stably() {
    let text = "2026-09-02 b 1\n2026-09-01 z 2\n2026-09-02 a 3\n2026-09-02 b 4\n";
    let ingested = ingest_expenses(&IngestInput { text: text.into() }).unwrap();
    let got: Vec<(String, String, String)> = ingested
        .entries
        .iter()
        .map(|e| (e.date.clone(), e.description.clone(), e.amount_text.clone()))
        .collect();
    assert_eq!(
        got,
        vec![
            ("2026-09-01".into(), "z".into(), "2".into()),
            ("2026-09-02".into(), "a".into(), "3".into()),
            ("2026-09-02".into(), "b".into(), "1".into()),
            ("2026-09-02".into(), "b".into(), "4".into()),
        ]
    );
}

#[test]
fn ingest_counts_skipped_lines_and_ignores_comments() {
    let text = "# header\n\n2026-09-01 咖啡 18.00\nnot a line\n   \n2026-13 x 5\r\n2026-09-02 书 25\r\n";
    let ingested = ingest_expenses(&IngestInput { text: text.into() }).unwrap();
    assert_eq!(ingested.output.record_count, 2);
    assert_eq!(ingested.output.skipped_lines, 2);
    assert_eq!(ingested.entries[1].description, "书");
    assert_eq!(ingested.entries[1].category, "教育");
}

#[test]
fn ingest_ignores_the_order_of_lines() {
    let a = "2026-09-02 咖啡 18\n# note\n2026-09-01 地铁 6\nbad line\n2026-09-03 电影 45.5\n";
    let b = "bad line\n2026-09-03 电影 45.5\n2026-09-01 地铁 6\n2026-09-02 咖啡 18\n# note\n";
    let x = ingest_expenses(&IngestInput { text: a.into() }).unwrap();
    let y = ingest_expenses(&IngestInput { text: b.into() }).unwrap();
    assert_eq!(x.entries, y.entries);
    assert_eq!(x.output, y.output);
    assert_eq!(x.output.skipped_lines, 1);
    // Line endings with a carriage return, and a last line without one.
    let c = "2026-09-03 电影 45.5\r\nbad line\r\n2026-09-02 咖啡 18\r\n# note\r\n2026-09-01 地铁 6";
    let z = ingest_expenses(&IngestInput { text: c.into() }).unwrap();
    assert_eq!(x.entries, z.entries);
    assert_eq!(x.output, z.output);
}

#[test]
fn ingest_error_reports_the_line_count() {
    let err = ingest_expenses(&IngestInput { text: "a\nb\nc".into() }).unwrap_err();
    assert_eq!(err, IngestError::NoTransactions { line_count: 3 });
    assert_eq!(
        err.message(),
        "no transactions parsed from 3 input line(s); nothing to ingest"
    );
    let err = ingest_expenses(&IngestInput { text: String::new() }).unwrap_err();
    assert_eq!(err, IngestError::NoTransactions { line_count: 0 });
}

// ---- one line --------------------------------------------------------------

#[test]
fn parse_line_takes_date_description_and_amount() {
    let e = parse_line("2026-09-01 星巴克 咖啡 ¥32.50").unwrap();
    assert_eq!(e.date, "2026-09-01");
    assert_eq!(e.description, "星巴克 咖啡");
    assert_eq!(e.amount_text, "32.50");
    assert_eq!(e.category, "餐饮");
}

#[test]
fn parse_line_with_commas_trims_fields() {
    let e = parse_line("2026-09-05 , Netflix monthly ,  -15.99 ").unwrap();
    assert_eq!(e.date, "2026-09-05");
    assert_eq!(e.description, "Netflix monthly");
    assert_eq!(e.amount_text, "-15.99");
    assert_eq!(e.category, "娱乐");
    // Empty fields count as tokens and stay in the description.
    let e = parse_line("2026-09-05,,x,7").unwrap();
    assert_eq!(e.description, " x");
}

#[test]
fn parse_line_finds_the_date_and_the_amount_anywhere() {
    // The date is the first date token, wherever it stands.
    let e = parse_line("消费 2026-09-01 地铁 6.00").unwrap();
    assert_eq!(e.date, "2026-09-01");
    assert_eq!(e.description, "地铁");
    assert_eq!(e.amount_text, "6.00");
    assert_eq!(e.category, "交通");
    assert_eq!(cents_of(&e.amount_text), 600);
    // The amount is the last numeric token; what follows it is dropped.
    let e = parse_line("2026-09-01 打车 25.00 元").unwrap();
    assert_eq!(e.description, "打车");
    assert_eq!(cents_of(&e.amount_text), 2500);
    assert_eq!(e.category, "交通");
    // A number in the description is not the amount when a later one is.
    let e = parse_line("2026-09-01 7-11 便利店 12").unwrap();
    assert_eq!(e.description, "7-11 便利店");
    assert_eq!(e.amount_text, "12");
    // The date must come before the amount.
    assert!(parse_line("5.00 2026-09-01 x").is_none());
    // The second date of a line belongs to the description.
    let e = parse_line("2026-09-01 退款 2026-08-30 -9.5").unwrap();
    assert_eq!(e.description, "退款 2026-08-30");
    assert_eq!(e.amount_text, "-9.5");
}

#[test]
fn parse_line_rejects_malformed_lines() {
    assert!(parse_line("2026-09-01 45.90").is_none());
    assert!(parse_line("2026/09/01 饭 45.90").is_none());
    assert!(parse_line("2026-09-01 饭 abc").is_none());
    assert!(parse_line("2026-09-01 饭 1.2.3").is_none());
    assert!(parse_line("2026-09-01,,5").is_none());
}

#[test]
fn dates_must_be_yyyy_mm_dd() {
    assert!(looks_like_date("2026-09-01"));
    assert!(looks_like_date("0000-00-00"));
    assert!(!looks_like_date("2026-9-01"));
    assert!(!looks_like_date("2026-09-1x"));
    assert!(!looks_like_date("2026-09-011"));
    assert!(!looks_like_date("２０２６-09-01"));
}

#[test]
fn amounts_keep_digits_point_and_minus() {
    assert_eq!(clean_amount("¥1,234.50"), Some("1234.50".to_string()));
    assert_eq!(clean_amount("-.5"), Some("-.5".to_string()));
    assert_eq!(clean_amount("7."), Some("7.".to_string()));
    assert_eq!(clean_amount("-"), None);
    assert_eq!(clean_amount("."), None);
    assert_eq!(clean_amount("元"), None);
    assert_eq!(clean_amount("5-"), None);
    assert_eq!(clean_amount("--5"), None);
    assert_eq!(clean_amount("1.2.3"), None);
}

// ---- categories ------------------------------------------------------------

#[test]
fn first_matching_rule_wins() {
    // "会员" (entertainment) and "超市" (food) both occur; food comes first.
    assert_eq!(categorize("超市会员卡"), "餐饮");
    assert_eq!(categorize("滴滴 加油"), "交通");
    assert_eq!(categorize("房租"), "居住");
    assert_eq!(categorize("门诊"), "医疗");
    assert_eq!(categorize("京东"), "购物");
}

#[test]
fn categories_ignore_case() {
    assert_eq!(categorize("UBER ride"), "交通");
    assert_eq!(categorize("Luckin Coffee"), "餐饮");
    assert_eq!(categorize_lowered("UBER ride"), "其他");
    assert_eq!(categorize_lowered("uber ride"), "交通");
}

// ---- formatting ------------------------------------------------------------

#[test]
fn cents_are_written_as_yuan() {
    assert_eq!(format_cents(35_190), "¥351.90");
    assert_eq!(format_cents(5), "¥0.05");
    assert_eq!(format_cents(0), "¥0.00");
    assert_eq!(format_cents(-1_234_505), "-¥12345.05");
    assert_eq!(format_cents(i64::MIN), "-¥92233720368547758.08");
}

#[test]
fn slugs_ignore_ascii_case_and_are_their_own_slugs() {
    for label in ["September W1", "  9月第一周!! ", "a -- b", "!!!", "ÄBC x", "Q3 Review-Final"] {
        let slug = slugify(label);
        assert_eq!(slugify(&label.to_ascii_lowercase()), slug);
        assert_eq!(slugify(&slug), slug);
    }
}

#[test]
fn slugs_follow_the_given_character_classes() {
    assert_eq!(slugify_classified("é x!", &vec![true, false, false, false]), "é-x");
    assert_eq!(slugify_classified("é x!", &vec![false, false, false, false]), "x");
    assert_eq!(slugify_classified("éé", &vec![false, false]), "ledger");
    let label = "9月 第一周 Ω";
    let flags: Vec<bool> = label.chars().map(|c| c.is_alphanumeric()).collect();
    assert_eq!(slugify_classified(label, &flags), slugify(label));
    assert_eq!(slugify(label), "9月-第一周-Ω");
}

#[test]
fn slugs_name_report_files() {
    assert_eq!(slugify("September W1"), "september-w1");
    assert_eq!(slugify("  9月第一周!! "), "9月第一周");
    assert_eq!(slugify("a -- b"), "a-b");
    assert_eq!(slugify("!!!"), "ledger");
    assert_eq!(slugify(""), "ledger");
}

// ---- summaries -------------------------------------------------------------

#[test]
fn summaries_refuse_an_empty_dataset() {
    let err = summarize_spending(&Vec::new()).unwrap_err();
    assert_eq!(err, AnalyzeError::EmptyDataset);
    assert_eq!(
        err.message(),
        "data/transactions.json holds no records; refusing to emit an empty report"
    );
}

#[test]
fn categories_rank_by_total_then_name() {
    let records = vec![
        tx("2026-09-01", "a", 100, "餐饮"),
        tx("2026-09-01", "b", 300, "交通"),
        tx("2026-09-02", "c", 200, "餐饮"),
        tx("2026-09-02", "d", 50, "其他"),
        tx("2026-09-03", "e", 300, "娱乐"),
    ];
    let ranked = rank_categories(&records);
    let got: Vec<(String, i64, usize)> = ranked
        .iter()
        .map(|c| (c.category.clone(), c.cents, c.count))
        .collect();
    // 交通 (U+4EA4) comes before 娱乐 (U+5A31) and 餐饮 (U+9910).
    assert_eq!(
        got,
        vec![
            ("交通".to_string(), 300, 1),
            ("娱乐".to_string(), 300, 1),
            ("餐饮".to_string(), 300, 2),
            ("其他".to_string(), 50, 1),
        ]
    );
    let total: i64 = ranked.iter().map(|c| c.cents).sum();
    assert_eq!(total, 950);
}

#[test]
fn largest_expenses_keep_order_on_ties() {
    let records = vec![
        tx("2026-09-01", "a", 10, "x"),
        tx("2026-09-01", "b", 30, "x"),
        tx("2026-09-01", "c", 10, "x"),
        tx("2026-09-01", "d", 30, "x"),
    ];
    let top = largest_first(&records);
    let names: Vec<&str> = top.iter().map(|t| t.description.as_str()).collect();
    assert_eq!(names, vec!["b", "d", "a", "c"]);
}

#[test]
fn dates_span_earliest_to_latest() {
    let records = vec![
        tx("2026-09-05", "a", 1, "x"),
        tx("2026-08-30", "b", 1, "x"),
        tx("2026-09-10", "c", 1, "x"),
    ];
    let s = summarize_spending(&records).unwrap();
    assert_eq!(s.first_date, "2026-08-30");
    assert_eq!(s.last_date, "2026-09-10");
    assert_eq!(s.total_cents, 3);
}

#[test]
fn overflowing_sums_are_detected() {
    let records = vec![tx("2026-09-01", "a", i64::MAX, "x"), tx("2026-09-01", "b", 1, "y")];
    assert!(!sums_fit_exec(&records));
    let records = vec![tx("2026-09-01", "a", i64::MAX, "x"), tx("2026-09-01", "b", -1, "y")];
    assert!(sums_fit_exec(&records));
    let records = vec![
        tx("2026-09-01", "a", i64::MAX, "x"),
        tx("2026-09-01", "b", -5, "y"),
        tx("2026-09-01", "c", 3, "x"),
    ];
    assert!(!sums_fit_exec(&records));
}

#[test]
fn zero_total_shows_a_dash_for_shares() {
    let records = vec![tx("2026-09-01", "a", 5, "x"), tx("2026-09-02", "b", -5, "x")];
    let s = summarize_spending(&records).unwrap();
    let rendered = render_report(
        "z",
        &s.first_date,
        &s.last_date,
        s.record_count,
        s.total_cents,
        &s.ranked,
        &s.top,
        &vec!["ignored".to_string()],
    );
    assert!(rendered.contains("| x | ¥0.00 | — | 2 |\n"));
    assert!(rendered.contains("- 总支出：¥0.00\n"));
}

#[test]
fn report_lists_at_most_five_largest() {
    let records: Vec<Transaction> = (1..=7)
        .map(|i| tx("2026-09-01", &format!("item{i}"), i * 100, "购物"))
        .collect();
    let s = summarize_spending(&records).unwrap();
    let report = analyze_spending(&s, &AnalyzeInput { label: "All".into() }, &percents(&s));
    assert!(report.rendered.contains("item7"));
    assert!(report.rendered.contains("item3"));
    assert!(!report.rendered.contains("item2"));
    assert_eq!(report.rendered, expected_report("All", &s));
}

