//! The spending report: its markdown text and the file name it is stored
//! under.
use vstd::prelude::*;

use crate::amount::{cents_text, decimal, push_cents, push_decimal};
use crate::ledger::{Transaction, TransactionView};
use crate::report::{tx_views, total_views, CategoryTotal, CategoryTotalView, SpendingSummary};
use crate::text::{
    ascii_lower, ascii_lower_spec, ascii_lowercase, char_is_alphanumeric, chars_of, is_alphanumeric,
    is_ascii_alphanumeric, is_ascii_alphanumeric_spec, push_range, push_str,
};

verus! {

// ---------------------------------------------------------------------------
// File names
// ---------------------------------------------------------------------------

/// Turning a label into a file-name slug, one character at a time: the slug
/// so far, and whether it ends in a dash that stands for a run of other
/// characters.
pub open spec fn slug_state(s: Seq<char>) -> (Seq<char>, bool)
    decreases s.len(),
{
    if s.len() == 0 {
        (Seq::empty(), false)
    } else {
        let (out, last_dash) = slug_state(s.drop_last());
        let c = s.last();
        if is_ascii_alphanumeric_spec(c) {
            (out.push(ascii_lower_spec(c)), false)
        } else if is_alphanumeric(c) {
            (out.push(c), false)
        } else if !last_dash {
            (out.push('-'), true)
        } else {
            (out, true)
        }
    }
}

/// `s` without its leading dashes.
pub open spec fn trim_dash_start(s: Seq<char>) -> Seq<char>
    decreases s.len(),
{
    if s.len() > 0 && s[0] == '-' {
        trim_dash_start(s.drop_first())
    } else {
        s
    }
}

/// `s` without its trailing dashes.
pub open spec fn trim_dash_end(s: Seq<char>) -> Seq<char>
    decreases s.len(),
{
    if s.len() > 0 && s.last() == '-' {
        trim_dash_end(s.drop_last())
    } else {
        s
    }
}

/// The slug of a label: ASCII letters and digits in lower case, other
/// letters and digits as they are, every run of other characters as one
/// `-`, with no `-` at either end; `ledger` when nothing is left.
pub open spec fn slugify_spec(label: Seq<char>) -> Seq<char> {
    let t = trim_dash_start(trim_dash_end(slug_state(label).0));
    if t.len() == 0 {
        "ledger"@
    } else {
        t
    }
}

proof fn lemma_trim_dash_start_ends(s: Seq<char>)
    requires
        s.len() == 0 || s.last() != '-',
    ensures
        trim_dash_start(s).len() == 0 || (trim_dash_start(s)[0] != '-' && trim_dash_start(s).last()
            != '-'),
    decreases s.len(),
{
    if s.len() > 0 && s[0] == '-' {
        if s.len() > 1 {
            assert(s.drop_first().last() == s.last());
        }
        lemma_trim_dash_start_ends(s.drop_first());
    }
}

proof fn lemma_trim_dash_end_last(s: Seq<char>)
    ensures
        trim_dash_end(s).len() == 0 || trim_dash_end(s).last() != '-',
    decreases s.len(),
{
    if s.len() > 0 && s.last() == '-' {
        lemma_trim_dash_end_last(s.drop_last());
    }
}

/// Law: a slug is never empty and never begins or ends with `-`.
pub proof fn lemma_slug_shape(label: Seq<char>)
    ensures
        slugify_spec(label).len() > 0,
        slugify_spec(label)[0] != '-',
        slugify_spec(label).last() != '-',
{
    let raw = slug_state(label).0;
    lemma_trim_dash_end_last(raw);
    lemma_trim_dash_start_ends(trim_dash_end(raw));
    reveal_strlit("ledger");
}

proof fn lemma_ascii_lower_char(c: char)
    ensures
        is_ascii_alphanumeric_spec(ascii_lower_spec(c)) == is_ascii_alphanumeric_spec(c),
        ascii_lower_spec(ascii_lower_spec(c)) == ascii_lower_spec(c),
        !is_ascii_alphanumeric_spec(c) ==> ascii_lower_spec(c) == c,
{
    if 'A' <= c && c <= 'Z' {
        let l = ((c as u32) + 32) as char;
        assert('a' <= l && l <= 'z');
    }
}

proof fn lemma_slug_state_ascii_case(s: Seq<char>)
    ensures
        slug_state(ascii_lowercase(s)) == slug_state(s),
    decreases s.len(),
{
    if s.len() > 0 {
        let l = ascii_lowercase(s);
        assert(l.drop_last() =~= ascii_lowercase(s.drop_last()));
        lemma_slug_state_ascii_case(s.drop_last());
        lemma_ascii_lower_char(s.last());
        assert(l.last() == ascii_lower_spec(s.last()));
    }
}

/// Law: labels that differ only in the case of ASCII letters have the same
/// slug, so they name the same report file.
pub proof fn lemma_slug_ignores_ascii_case(label: Seq<char>)
    ensures
        slugify_spec(ascii_lowercase(label)) == slugify_spec(label),
{
    lemma_slug_state_ascii_case(label);
}

/// A character that a slug can hold: a lower-case ASCII letter or digit, a
/// letter or digit beyond ASCII, or `-`.
pub open spec fn is_slug_char(c: char) -> bool {
    ||| is_ascii_alphanumeric_spec(c) && ascii_lower_spec(c) == c
    ||| !is_ascii_alphanumeric_spec(c) && is_alphanumeric(c)
    ||| c == '-'
}

/// `s` holds only slug characters, and never two dashes in a row.
pub open spec fn is_slug_text(s: Seq<char>) -> bool {
    &&& forall|i: int| 0 <= i < s.len() ==> is_slug_char(#[trigger] s[i])
    &&& forall|i: int| 0 <= i < s.len() - 1 ==> !(#[trigger] s[i] == '-' && s[i + 1] == '-')
}

proof fn lemma_slug_state_shape(s: Seq<char>)
    ensures
        is_slug_text(slug_state(s).0),
        slug_state(s).1 == (slug_state(s).0.len() > 0 && slug_state(s).0.last() == '-'),
    decreases s.len(),
{
    if s.len() > 0 {
        lemma_slug_state_shape(s.drop_last());
        lemma_ascii_lower_char(s.last());
        let (out, _) = slug_state(s.drop_last());
        let (o2, _) = slug_state(s);
        assert forall|i: int| 0 <= i < o2.len() implies is_slug_char(#[trigger] o2[i]) by {
            if i < out.len() {
                assert(o2[i] == out[i]);
            }
        }
        assert forall|i: int| 0 <= i < o2.len() - 1 implies !(#[trigger] o2[i] == '-' && o2[i + 1]
            == '-') by {
            if i + 1 < out.len() {
                assert(o2[i] == out[i] && o2[i + 1] == out[i + 1]);
            } else {
                assert(o2[i] == out[i]);
            }
        }
    }
}

/// A slug text maps to itself, one character at a time.
proof fn lemma_slug_state_fixed(s: Seq<char>)
    requires
        is_slug_text(s),
    ensures
        slug_state(s) == (s, s.len() > 0 && s.last() == '-'),
    decreases s.len(),
{
    if s.len() > 0 {
        let init = s.drop_last();
        assert forall|i: int| 0 <= i < init.len() implies is_slug_char(#[trigger] init[i]) by {
            assert(init[i] == s[i]);
        }
        assert forall|i: int| 0 <= i < init.len() - 1 implies !(#[trigger] init[i] == '-' && init[i
            + 1] == '-') by {
            assert(init[i] == s[i] && init[i + 1] == s[i + 1]);
        }
        lemma_slug_state_fixed(init);
        let c = s.last();
        assert(is_slug_char(s[s.len() - 1]));
        if c == '-' && init.len() > 0 {
            assert(!(s[s.len() - 2] == '-' && s[s.len() - 1] == '-'));
        }
        assert(init.push(c) =~= s);
    }
}

proof fn lemma_trim_dash_end_sub(s: Seq<char>)
    ensures
        exists|k: int| 0 <= k <= s.len() && #[trigger] s.take(k) == trim_dash_end(s),
    decreases s.len(),
{
    if s.len() > 0 && s.last() == '-' {
        lemma_trim_dash_end_sub(s.drop_last());
        let k = choose|k: int| 0 <= k <= s.drop_last().len() && #[trigger] s.drop_last().take(k)
            == trim_dash_end(s.drop_last());
        assert(s.drop_last().take(k) =~= s.take(k));
    } else {
        assert(s.take(s.len() as int) =~= s);
    }
}

proof fn lemma_trim_dash_start_sub(s: Seq<char>)
    ensures
        exists|k: int| 0 <= k <= s.len() && #[trigger] s.skip(k) == trim_dash_start(s),
    decreases s.len(),
{
    if s.len() > 0 && s[0] == '-' {
        lemma_trim_dash_start_sub(s.drop_first());
        let k = choose|k: int| 0 <= k <= s.drop_first().len() && #[trigger] s.drop_first().skip(k)
            == trim_dash_start(s.drop_first());
        assert(s.drop_first().skip(k) =~= s.skip(k + 1));
    } else {
        assert(s.skip(0) =~= s);
    }
}

proof fn lemma_slug_text_sub(s: Seq<char>, lo: int, hi: int)
    requires
        is_slug_text(s),
        0 <= lo <= hi <= s.len(),
    ensures
        is_slug_text(s.subrange(lo, hi)),
{
    let t = s.subrange(lo, hi);
    assert forall|i: int| 0 <= i < t.len() implies is_slug_char(#[trigger] t[i]) by {
        assert(t[i] == s[lo + i]);
    }
    assert forall|i: int| 0 <= i < t.len() - 1 implies !(#[trigger] t[i] == '-' && t[i + 1] == '-') by {
        assert(t[i] == s[lo + i] && t[i + 1] == s[lo + i + 1]);
    }
}

/// Law: a slug is its own slug.
pub proof fn lemma_slug_idempotent(label: Seq<char>)
    ensures
        slugify_spec(slugify_spec(label)) == slugify_spec(label),
{
    let raw = slug_state(label).0;
    lemma_slug_state_shape(label);
    lemma_trim_dash_end_sub(raw);
    let k1 = choose|k: int| 0 <= k <= raw.len() && #[trigger] raw.take(k) == trim_dash_end(raw);
    lemma_slug_text_sub(raw, 0, k1);
    assert(raw.take(k1) =~= raw.subrange(0, k1));
    let e = trim_dash_end(raw);
    lemma_trim_dash_start_sub(e);
    let k2 = choose|k: int| 0 <= k <= e.len() && #[trigger] e.skip(k) == trim_dash_start(e);
    lemma_slug_text_sub(e, k2, e.len() as int);
    assert(e.skip(k2) =~= e.subrange(k2, e.len() as int));
    let t = trim_dash_start(e);
    lemma_slug_shape(label);
    let slug = slugify_spec(label);
    if t.len() == 0 {
        reveal_strlit("ledger");
        assert(is_slug_text(slug)) by {
            assert forall|i: int| 0 <= i < slug.len() implies is_slug_char(#[trigger] slug[i]) by {
                lemma_ascii_lower_char(slug[i]);
            }
        }
    }
    assert(is_slug_text(slug));
    lemma_slug_state_fixed(slug);
    // No dash at either end, so trimming changes nothing.
    assert(trim_dash_end(slug) == slug);
    assert(trim_dash_start(slug) == slug);
}

/// Turning a label into a slug as `slug_state` does, where `alnum[i]` tells
/// whether character `i`, when no ASCII letter or digit, is a letter or digit.
pub open spec fn slug_state_by(s: Seq<char>, alnum: Seq<bool>) -> (Seq<char>, bool)
    decreases s.len(),
{
    if s.len() == 0 {
        (Seq::empty(), false)
    } else {
        let (out, last_dash) = slug_state_by(s.drop_last(), alnum.drop_last());
        let c = s.last();
        if is_ascii_alphanumeric_spec(c) {
            (out.push(ascii_lower_spec(c)), false)
        } else if alnum.last() {
            (out.push(c), false)
        } else if !last_dash {
            (out.push('-'), true)
        } else {
            (out, true)
        }
    }
}

/// The slug of a label given which of its characters are letters or digits
/// (see `slug_state_by`), trimmed of dashes, or `ledger` when nothing is left.
pub open spec fn slugify_by_spec(label: Seq<char>, alnum: Seq<bool>) -> Seq<char> {
    let t = trim_dash_start(trim_dash_end(slug_state_by(label, alnum).0));
    if t.len() == 0 {
        "ledger"@
    } else {
        t
    }
}

/// Whether each character of `s` is a letter or digit.
pub open spec fn alnum_flags(s: Seq<char>) -> Seq<bool> {
    s.map_values(|c: char| is_alphanumeric(c))
}

proof fn lemma_slug_state_by_flags(s: Seq<char>)
    ensures
        slug_state_by(s, alnum_flags(s)) == slug_state(s),
    decreases s.len(),
{
    if s.len() > 0 {
        assert(alnum_flags(s).drop_last() =~= alnum_flags(s.drop_last()));
        lemma_slug_state_by_flags(s.drop_last());
    }
}

/// The slug of a label whose characters have been classified: `alnum[i]`
/// tells whether character `i` of `label` is a letter or digit (see
/// `slugify_by_spec`).
pub fn slugify_classified(label: &str, alnum: &Vec<bool>) -> (r: String)
    requires
        alnum.len() == label@.len(),
    ensures
        r@ == slugify_by_spec(label@, alnum@),
{
    let chars = chars_of(label);
    let mut out: Vec<char> = Vec::new();
    let mut last_dash = false;
    let mut i: usize = 0;
    while i < chars.len()
        invariant
            0 <= i <= chars.len(),
            chars@ == label@,
            alnum.len() == chars.len(),
            (out@, last_dash) == slug_state_by(chars@.take(i as int), alnum@.take(i as int)),
        decreases chars.len() - i,
    {
        let c = chars[i];
        assert(chars@.take(i + 1).drop_last() =~= chars@.take(i as int));
        assert(chars@.take(i + 1).last() == c);
        assert(alnum@.take(i + 1).drop_last() =~= alnum@.take(i as int));
        assert(alnum@.take(i + 1).last() == alnum[i as int]);
        if is_ascii_alphanumeric(c) {
            out.push(ascii_lower(c));
            last_dash = false;
        } else if alnum[i] {
            out.push(c);
            last_dash = false;
        } else if !last_dash {
            out.push('-');
            last_dash = true;
        }
        i = i + 1;
    }
    assert(chars@.take(chars.len() as int) =~= label@);
    assert(alnum@.take(chars.len() as int) =~= alnum@);
    let mut b = out.len();
    assert(out@.take(b as int) =~= out@);
    while b > 0 && out[b - 1] == '-'
        invariant
            0 <= b <= out.len(),
            trim_dash_end(out@) == trim_dash_end(out@.take(b as int)),
        decreases b,
    {
        assert(out@.take(b as int).drop_last() =~= out@.take(b - 1));
        b = b - 1;
    }
    assert(out@.take(b as int) =~= out@.subrange(0, b as int));
    let mut a: usize = 0;
    assert(out@.subrange(0, b as int) == trim_dash_end(out@));
    while a < b && out[a] == '-'
        invariant
            0 <= a <= b <= out.len(),
            trim_dash_start(trim_dash_end(out@)) == trim_dash_start(out@.subrange(a as int, b as int)),
        decreases b - a,
    {
        assert(out@.subrange(a as int, b as int).drop_first() =~= out@.subrange(a + 1, b as int));
        a = a + 1;
    }
    if a == b {
        String::from_str("ledger")
    } else {
        let mut s = String::new();
        push_range(&mut s, &out, a, b);
        assert(s@ =~= out@.subrange(a as int, b as int));
        s
    }
}

/// The slug of `label`, used to name its report file (see `slugify_spec`).
pub fn slugify(label: &str) -> (r: String)
    ensures
        r@ == slugify_spec(label@),
        r@.len() > 0,
        r@[0] != '-',
        r@.last() != '-',
{
    proof {
        lemma_slug_shape(label@);
        lemma_slug_state_by_flags(label@);
    }
    let chars = chars_of(label);
    let mut flags: Vec<bool> = Vec::new();
    let mut i: usize = 0;
    while i < chars.len()
        invariant
            0 <= i <= chars.len(),
            chars@ == label@,
            flags@ == alnum_flags(chars@.take(i as int)),
        decreases chars.len() - i,
    {
        let f = char_is_alphanumeric(chars[i]);
        flags.push(f);
        i = i + 1;
        assert(flags@ =~= alnum_flags(chars@.take(i as int)));
    }
    assert(chars@.take(chars.len() as int) =~= label@);
    slugify_classified(label, &flags)
}

/// Where the report on `label` is stored, relative to the workspace.
pub open spec fn report_path(label: Seq<char>) -> Seq<char> {
    "reports/spending-"@ + slugify_spec(label) + ".md"@
}

/// Law: every report path has the form `reports/spending-*.md`, with a
/// non-empty middle.
pub proof fn lemma_report_path_shape(label: Seq<char>)
    ensures
        "reports/spending-"@.is_prefix_of(report_path(label)),
        ".md"@.is_suffix_of(report_path(label)),
        report_path(label).len() > "reports/spending-"@.len() + ".md"@.len(),
{
    let p = report_path(label);
    let pre = "reports/spending-"@;
    let suf = ".md"@;
    let slug = slugify_spec(label);
    lemma_slug_shape(label);
    assert(p.take(pre.len() as int) =~= pre);
    assert(p.skip(p.len() - suf.len()) =~= suf);
}

// ---------------------------------------------------------------------------
// The report text
// ---------------------------------------------------------------------------

/// The number of largest expenses that the report lists.
pub const TOP_COUNT: usize = 5;

/// The report's title, period, count and total, and the head of the
/// category table.
pub open spec fn report_head(
    label: Seq<char>,
    first_date: Seq<char>,
    last_date: Seq<char>,
    record_count: nat,
    total_cents: int,
) -> Seq<char> {
    "# 消费分析报告："@ + label + "\n\n"@ + "- 统计区间："@ + first_date + " ~ "@ + last_date + "\n"@
        + "- 交易笔数："@ + decimal(record_count) + "\n"@ + "- 总支出："@ + cents_text(total_cents)
        + "\n\n"@ + "## 分类汇总\n\n"@ + "| 分类 | 金额 | 占比 | 笔数 |\n|---|---:|---:|---:|\n"@
}

/// The share column of a category: its percentage of the total, or a dash
/// when the total is zero.
pub open spec fn share_text(total_cents: int, percent: Seq<char>) -> Seq<char> {
    if total_cents == 0 {
        "—"@
    } else {
        percent
    }
}

/// One row of the category table.
pub open spec fn category_row(c: CategoryTotalView, share: Seq<char>) -> Seq<char> {
    "| "@ + c.category + " | "@ + cents_text(c.cents as int) + " | "@ + share + " | "@ + decimal(
        c.count as nat,
    ) + " |\n"@
}

/// The rows of the category table; `percents[i]` is the percentage text of
/// `ranked[i]`.
pub open spec fn category_rows(
    ranked: Seq<CategoryTotalView>,
    percents: Seq<Seq<char>>,
    total_cents: int,
) -> Seq<char>
    decreases ranked.len(),
{
    if ranked.len() == 0 {
        Seq::empty()
    } else {
        category_rows(ranked.drop_last(), percents, total_cents) + category_row(
            ranked.last(),
            share_text(total_cents, percents[ranked.len() - 1]),
        )
    }
}

/// One line of the largest-expenses list.
pub open spec fn top_row(t: TransactionView) -> Seq<char> {
    "- "@ + t.date + " "@ + t.description + " · "@ + cents_text(t.amount_cents as int) + " · "@
        + t.category + "\n"@
}

/// The lines of the largest-expenses list.
pub open spec fn top_rows(top: Seq<TransactionView>) -> Seq<char>
    decreases top.len(),
{
    if top.len() == 0 {
        Seq::empty()
    } else {
        top_rows(top.drop_last()) + top_row(top.last())
    }
}

/// The closing note of the report.
pub open spec fn report_foot() -> Seq<char> {
    "\n---\n每行的金额、占比与笔数均可由 data/transactions.json 逐条核对；分类为规则匹配，规则见 agentic_ledger::categorize。\n"@
}

/// The first `TOP_COUNT` records of `top`, or all of them when there are
/// fewer.
pub open spec fn leading(top: Seq<TransactionView>) -> Seq<TransactionView> {
    if top.len() <= TOP_COUNT {
        top
    } else {
        top.take(TOP_COUNT as int)
    }
}

/// The whole report.
pub open spec fn report_text(
    label: Seq<char>,
    first_date: Seq<char>,
    last_date: Seq<char>,
    record_count: nat,
    total_cents: int,
    ranked: Seq<CategoryTotalView>,
    percents: Seq<Seq<char>>,
    top: Seq<TransactionView>,
) -> Seq<char> {
    report_head(label, first_date, last_date, record_count, total_cents) + category_rows(
        ranked,
        percents,
        total_cents,
    ) + "\n## 金额最高的 5 笔\n\n"@ + top_rows(leading(top)) + report_foot()
}

/// The views of a sequence of strings.
pub open spec fn string_views(v: Seq<String>) -> Seq<Seq<char>> {
    v.map_values(|s: String| s@)
}

/// Renders the markdown report. `percents[i]` is the percentage text of
/// `ranked[i]`, shown unless the total is zero.
#[verifier::rlimit(40)]
pub fn render_report(
    label: &str,
    first_date: &str,
    last_date: &str,
    record_count: usize,
    total_cents: i64,
    ranked: &Vec<CategoryTotal>,
    top: &Vec<Transaction>,
    percents: &Vec<String>,
) -> (r: String)
    requires
        percents.len() == ranked.len(),
    ensures
        r@ == report_text(
            label@,
            first_date@,
            last_date@,
            record_count as nat,
            total_cents as int,
            total_views(ranked@),
            string_views(percents@),
            tx_views(top@),
        ),
{
    let mut out = String::new();
    push_str(&mut out, "# 消费分析报告：");
    push_str(&mut out, label);
    push_str(&mut out, "\n\n");
    push_str(&mut out, "- 统计区间：");
    push_str(&mut out, first_date);
    push_str(&mut out, " ~ ");
    push_str(&mut out, last_date);
    push_str(&mut out, "\n");
    push_str(&mut out, "- 交易笔数：");
    push_decimal(&mut out, record_count as u64);
    push_str(&mut out, "\n");
    push_str(&mut out, "- 总支出：");
    push_cents(&mut out, total_cents);
    push_str(&mut out, "\n\n");
    push_str(&mut out, "## 分类汇总\n\n");
    push_str(&mut out, "| 分类 | 金额 | 占比 | 笔数 |\n|---|---:|---:|---:|\n");
    let ghost head = out@;
    assert(head =~= report_head(
        label@,
        first_date@,
        last_date@,
        record_count as nat,
        total_cents as int,
    ));
    let ghost rv = total_views(ranked@);
    let ghost pv = string_views(percents@);
    let mut i: usize = 0;
    while i < ranked.len()
        invariant
            0 <= i <= ranked.len(),
            percents.len() == ranked.len(),
            rv == total_views(ranked@),
            pv == string_views(percents@),
            out@ == head + category_rows(rv.take(i as int), pv, total_cents as int),
        decreases ranked.len() - i,
    {
        let ghost before = out@;
        let c = &ranked[i];
        assert(rv[i as int] == c@);
        assert(pv[i as int] == percents@[i as int]@);
        push_str(&mut out, "| ");
        push_str(&mut out, c.category.as_str());
        push_str(&mut out, " | ");
        push_cents(&mut out, c.cents);
        push_str(&mut out, " | ");
        if total_cents == 0 {
            push_str(&mut out, "—");
        } else {
            push_str(&mut out, percents[i].as_str());
        }
        push_str(&mut out, " | ");
        push_decimal(&mut out, c.count as u64);
        push_str(&mut out, " |\n");
        let ghost taken = rv.take(i + 1);
        assert(taken.drop_last() =~= rv.take(i as int));
        assert(out@ =~= before + category_row(c@, share_text(total_cents as int, pv[i as int])));
        assert(category_rows(taken, pv, total_cents as int) == category_rows(
            rv.take(i as int),
            pv,
            total_cents as int,
        ) + category_row(c@, share_text(total_cents as int, pv[i as int])));
        i = i + 1;
    }
    assert(rv.take(ranked.len() as int) =~= rv);
    push_str(&mut out, "\n## 金额最高的 5 笔\n\n");
    let ghost mid = out@;
    let ghost tv = tx_views(top@);
    let shown = if top.len() <= TOP_COUNT {
        top.len()
    } else {
        TOP_COUNT
    };
    assert(leading(tv) =~= tv.take(shown as int));
    let mut k: usize = 0;
    while k < shown
        invariant
            0 <= k <= shown <= top.len(),
            tv == tx_views(top@),
            out@ == mid + top_rows(tv.take(k as int)),
        decreases shown - k,
    {
        let ghost before = out@;
        let t = &top[k];
        assert(tv[k as int] == t@);
        push_str(&mut out, "- ");
        push_str(&mut out, t.date.as_str());
        push_str(&mut out, " ");
        push_str(&mut out, t.description.as_str());
        push_str(&mut out, " · ");
        push_cents(&mut out, t.amount_cents);
        push_str(&mut out, " · ");
        push_str(&mut out, t.category.as_str());
        push_str(&mut out, "\n");
        let ghost taken = tv.take(k + 1);
        assert(taken.drop_last() =~= tv.take(k as int));
        assert(out@ =~= before + top_row(t@));
        k = k + 1;
    }
    push_str(
        &mut out,
        "\n---\n每行的金额、占比与笔数均可由 data/transactions.json 逐条核对；分类为规则匹配，规则见 agentic_ledger::categorize。\n",
    );
    assert(out@ =~= report_text(
        label@,
        first_date@,
        last_date@,
        record_count as nat,
        total_cents as int,
        rv,
        pv,
        tv,
    ));
    out
}

// ---------------------------------------------------------------------------
// Analyzing
// ---------------------------------------------------------------------------

/// A free-text label for the report; it also names the report's file.
#[derive(Debug, Clone)]
pub struct AnalyzeInput {
    pub label: String,
}

/// What an analysis produced: where the report goes, the total and the
/// number of records.
#[derive(Debug, Clone, PartialEq, Eq)]
pub struct AnalyzeOutput {
    pub artifact_path: String,
    pub total_cents: i64,
    pub record_count: usize,
}

/// A rendered report and its summary.
#[derive(Debug, Clone)]
pub struct SpendingReport {
    pub output: AnalyzeOutput,
    pub rendered: String,
}

/// Renders the report on the summarized records under the label of
/// `input`, and names its file `reports/spending-<slug>.md`. `percents[i]`
/// is the percentage text of `summary.ranked[i]`.
pub fn analyze_spending(
    summary: &SpendingSummary,
    input: &AnalyzeInput,
    percents: &Vec<String>,
) -> (r: SpendingReport)
    requires
        percents.len() == summary.ranked.len(),
    ensures
        r.output.artifact_path@ == report_path(input.label@),
        r.output.total_cents == summary.total_cents,
        r.output.record_count == summary.record_count,
        r.rendered@ == report_text(
            input.label@,
            summary.first_date@,
            summary.last_date@,
            summary.record_count as nat,
            summary.total_cents as int,
            total_views(summary.ranked@),
            string_views(percents@),
            tx_views(summary.top@),
        ),
{
    let rendered = render_report(
        input.label.as_str(),
        summary.first_date.as_str(),
        summary.last_date.as_str(),
        summary.record_count,
        summary.total_cents,
        &summary.ranked,
        &summary.top,
        percents,
    );
    let slug = slugify(input.label.as_str());
    let mut path = String::new();
    push_str(&mut path, "reports/spending-");
    push_str(&mut path, slug.as_str());
    push_str(&mut path, ".md");
    assert(path@ =~= report_path(input.label@));
    SpendingReport {
        output: AnalyzeOutput {
            artifact_path: path,
            total_cents: summary.total_cents,
            record_count: summary.record_count,
        },
        rendered,
    }
}

/// Law: the largest-expenses section lists the first five records of the
/// largest-first order, or all of them when there are fewer, and no more.
pub proof fn lemma_report_lists_five_largest(
    label: Seq<char>,
    first_date: Seq<char>,
    last_date: Seq<char>,
    record_count: nat,
    total_cents: int,
    ranked: Seq<CategoryTotalView>,
    percents: Seq<Seq<char>>,
    top: Seq<TransactionView>,
)
    ensures
        report_text(
            label,
            first_date,
            last_date,
            record_count,
            total_cents,
            ranked,
            percents,
            top,
        ) == report_head(label, first_date, last_date, record_count, total_cents) + category_rows(
            ranked,
            percents,
            total_cents,
        ) + "\n## 金额最高的 5 笔\n\n"@ + top_rows(
            top.take(
                if top.len() < 5 {
                    top.len() as int
                } else {
                    5
                },
            ),
        ) + report_foot(),
{
    assert(top.take(top.len() as int) =~= top);
}

/// Law: the list of largest expenses has one line per record it shows, in
/// order: the lines of the first `i` records, then the line of record `i`
/// (its date, description, amount and category), start the list.
pub proof fn lemma_top_rows_one_per_record(top: Seq<TransactionView>, i: int)
    requires
        0 <= i < top.len(),
    ensures
        (top_rows(top.take(i)) + top_row(top[i])).is_prefix_of(top_rows(top)),
        top_row(top[i]) == "- "@ + top[i].date + " "@ + top[i].description + " · "@ + cents_text(
            top[i].amount_cents as int,
        ) + " · "@ + top[i].category + "\n"@,
{
    assert(top.take(i + 1).drop_last() =~= top.take(i));
    assert(top.take(i + 1).last() == top[i]);
    lemma_top_rows_prefix(top, i + 1);
}

proof fn lemma_top_rows_prefix(top: Seq<TransactionView>, n: int)
    requires
        0 <= n <= top.len(),
    ensures
        top_rows(top.take(n)).is_prefix_of(top_rows(top)),
    decreases top.len() - n,
{
    if n == top.len() {
        assert(top.take(n) =~= top);
    } else {
        lemma_top_rows_prefix(top, n + 1);
        assert(top.take(n + 1).drop_last() =~= top.take(n));
        let a = top_rows(top.take(n));
        let b = top_rows(top.take(n + 1));
        assert(b == a + top_row(top[n]));
        assert forall|k: int| 0 <= k < a.len() implies a[k] == top_rows(top)[k] by {
            assert(b[k] == a[k]);
        }
    }
}

} // verus!
