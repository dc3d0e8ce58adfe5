//! Tracing the report back to the ledger: what the summary of ingested
//! records says of the ledger's lines, and what does not depend on the order
//! of those lines.
use vstd::prelude::*;

use crate::ledger::{
    entry_order, is_record_line, ledger_entries, parse_line_spec, skipped_count, EntryView,
    TransactionView,
};
use crate::order::{
    is_stable_sort, lemma_perm_onto, lemma_text_lt_irreflexive, lemma_text_lt_transitive,
    stable_arrangement, text_lt,
};
use crate::report::{
    category_count, category_total, has_category, is_category_ranking, is_first_date,
    is_last_date, summarizes, total_of, total_views, SpendingSummary,
};
use crate::text::{is_white_space, lines_of, trim, trim_end, trim_start};

verus! {

/// `u` is `v` rearranged by the one-to-one index map `perm`
/// (`u[i] == v[perm[i]]`).
pub open spec fn rearranges<T>(u: Seq<T>, v: Seq<T>, perm: Seq<int>) -> bool {
    &&& u.len() == v.len()
    &&& perm.len() == v.len()
    &&& forall|i: int| 0 <= i < perm.len() ==> 0 <= #[trigger] perm[i] < v.len() && u[i] == v[perm[i]]
    &&& forall|i: int, j: int| 0 <= i < j < perm.len() ==> #[trigger] perm[i] != #[trigger] perm[j]
}

/// Taking out the element that stands for the last of `v` leaves a
/// rearrangement of the rest of `v`.
pub proof fn lemma_rearranges_remove_last<T>(u: Seq<T>, v: Seq<T>, perm: Seq<int>) -> (pos: int)
    requires
        rearranges(u, v, perm),
        v.len() > 0,
    ensures
        0 <= pos < u.len(),
        u[pos] == v.last(),
        rearranges(u.remove(pos), v.drop_last(), perm.remove(pos)),
{
    let n = v.len() as int;
    lemma_perm_onto(perm, n);
    assert(perm.contains(n - 1));
    let pos = choose|i: int| 0 <= i < perm.len() && perm[i] == n - 1;
    let u2 = u.remove(pos);
    let v2 = v.drop_last();
    let p2 = perm.remove(pos);
    assert forall|i: int| 0 <= i < p2.len() implies 0 <= #[trigger] p2[i] < v2.len() && u2[i] == v2[p2[i]] by {
        if i < pos {
            assert(p2[i] == perm[i] && perm[i] != perm[pos]);
        } else {
            assert(p2[i] == perm[i + 1] && perm[i + 1] != perm[pos]);
        }
    }
    assert forall|i: int, j: int| 0 <= i < j < p2.len() implies #[trigger] p2[i] != #[trigger] p2[j] by {
        if j < pos {
        } else if i < pos {
            assert(p2[j] == perm[j + 1]);
        } else {
            assert(p2[i] == perm[i + 1] && p2[j] == perm[j + 1]);
        }
    }
    pos
}

/// The sums of `u` split into the element at `pos` and the rest.
proof fn lemma_sums_remove(u: Seq<TransactionView>, pos: int, c: Seq<char>)
    requires
        0 <= pos < u.len(),
    ensures
        total_of(u) == total_of(u.remove(pos)) + u[pos].amount_cents,
        category_total(u, c) == category_total(u.remove(pos), c) + if u[pos].category == c {
            u[pos].amount_cents as int
        } else {
            0
        },
        category_count(u, c) == category_count(u.remove(pos), c) + if u[pos].category == c {
            1int
        } else {
            0int
        },
    decreases u.len(),
{
    if pos == u.len() - 1 {
        assert(u.remove(pos) =~= u.drop_last());
    } else {
        lemma_sums_remove(u.drop_last(), pos, c);
        assert(u.remove(pos).drop_last() =~= u.drop_last().remove(pos));
        assert(u.remove(pos).last() == u.last());
    }
}

/// Sums of records do not depend on their order.
pub proof fn lemma_rearranged_sums(
    u: Seq<TransactionView>,
    v: Seq<TransactionView>,
    perm: Seq<int>,
    c: Seq<char>,
)
    requires
        rearranges(u, v, perm),
    ensures
        total_of(u) == total_of(v),
        category_total(u, c) == category_total(v, c),
        category_count(u, c) == category_count(v, c),
    decreases v.len(),
{
    if v.len() > 0 {
        let pos = lemma_rearranges_remove_last(u, v, perm);
        lemma_rearranged_sums(u.remove(pos), v.drop_last(), perm.remove(pos), c);
        lemma_sums_remove(u, pos, c);
    }
}

/// The record of an entry whose amount text is worth `cents(..)` cents.
pub open spec fn record_of(e: EntryView, cents: spec_fn(Seq<char>) -> i64) -> TransactionView {
    TransactionView {
        date: e.date,
        description: e.description,
        amount_cents: cents(e.amount_text),
        category: e.category,
    }
}

/// The records of `entries`, in their order.
pub open spec fn records_of(
    entries: Seq<EntryView>,
    cents: spec_fn(Seq<char>) -> i64,
) -> Seq<TransactionView> {
    entries.map_values(|e: EntryView| record_of(e, cents))
}

/// Law: a report on ingested records traces back to the ledger's lines.
/// Let the records be the ingested entries, each amount text turned into
/// cents by the same conversion `cents`, and `s` their summary. Then `s`
/// counts exactly the lines that gave a record, its total is the sum of
/// those lines' amounts, its first and last dates are the earliest and latest
/// of their dates, and its category table sums their amounts and counts them
/// per category: all as if the lines had been summarized in their own order.
pub proof fn lemma_report_traces_to_lines(
    text: Seq<char>,
    entries: Seq<EntryView>,
    cents: spec_fn(Seq<char>) -> i64,
    s: SpendingSummary,
)
    requires
        is_stable_sort(entries, ledger_entries(lines_of(text)), entry_order()),
        summarizes(s, records_of(entries, cents)),
    ensures
        ({
            let lines_records = records_of(ledger_entries(lines_of(text)), cents);
            &&& s.record_count == lines_records.len()
            &&& s.total_cents == total_of(lines_records)
            &&& is_first_date(s.first_date@, lines_records)
            &&& is_last_date(s.last_date@, lines_records)
            &&& is_category_ranking(total_views(s.ranked@), lines_records)
        }),
{
    let p = ledger_entries(lines_of(text));
    let perm = choose|perm: Seq<int>| stable_arrangement(entries, p, perm, entry_order());
    let u = records_of(entries, cents);
    let v = records_of(p, cents);
    assert forall|i: int| 0 <= i < perm.len() implies 0 <= #[trigger] perm[i] < v.len() && u[i] == v[perm[i]] by {
        assert(entries[i] == p[perm[i]]);
    }
    assert(rearranges(u, v, perm));
    lemma_rearranged_sums(u, v, perm, Seq::empty());
    lemma_perm_onto(perm, v.len() as int);
    assert forall|j: int| 0 <= j < v.len() implies u.contains(#[trigger] v[j]) by {
        assert(perm.contains(j));
        let i = choose|i: int| 0 <= i < perm.len() && perm[i] == j;
        assert(u[i] == v[j]);
    }
    // Dates.
    assert forall|j: int| 0 <= j < v.len() implies crate::order::text_le(
        s.first_date@,
        #[trigger] v[j].date,
    ) && crate::order::text_le(v[j].date, s.last_date@) by {
        assert(u.contains(v[j]));
        let i = choose|i: int| 0 <= i < u.len() && u[i] == v[j];
        assert(crate::order::text_le(s.first_date@, u[i].date));
        assert(crate::order::text_le(u[i].date, s.last_date@));
    }
    let k1 = choose|k: int| 0 <= k < u.len() && #[trigger] u[k].date == s.first_date@;
    assert(v[perm[k1]].date == s.first_date@);
    let k2 = choose|k: int| 0 <= k < u.len() && #[trigger] u[k].date == s.last_date@;
    assert(v[perm[k2]].date == s.last_date@);
    // Categories.
    let ranked = total_views(s.ranked@);
    assert forall|i: int| 0 <= i < ranked.len() implies (#[trigger] ranked[i]).cents == category_total(
        v,
        ranked[i].category,
    ) && ranked[i].count == category_count(v, ranked[i].category) by {
        lemma_rearranged_sums(u, v, perm, ranked[i].category);
    }
    assert forall|c: Seq<char>| #[trigger] has_category(v, c) == has_category(u, c) by {
        if has_category(v, c) {
            let j = choose|j: int| 0 <= j < v.len() && #[trigger] v[j].category == c;
            assert(u.contains(v[j]));
            let i = choose|i: int| 0 <= i < u.len() && u[i] == v[j];
            assert(u[i].category == c);
        }
        if has_category(u, c) {
            let i = choose|i: int| 0 <= i < u.len() && #[trigger] u[i].category == c;
            assert(v[perm[i]].category == c);
        }
    }
}


// ---------------------------------------------------------------------------
// The order of the lines
// ---------------------------------------------------------------------------

/// The entry that a line yields, if it yields one.
pub open spec fn line_entry(line: Seq<char>) -> Option<EntryView> {
    let t = trim(line);
    if is_record_line(t) {
        parse_line_spec(t)
    } else {
        None
    }
}

/// Whether a line is meant to hold a record but yields none.
pub open spec fn line_skipped(line: Seq<char>) -> bool {
    is_record_line(trim(line)) && parse_line_spec(trim(line)) is None
}

/// No two entries have the same date and description.
pub open spec fn distinct_keys(p: Seq<EntryView>) -> bool {
    forall|i: int, j: int|
        0 <= i < j < p.len() ==> !(#[trigger] p[i].date == #[trigger] p[j].date && p[i].description
            == p[j].description)
}

/// `a` comes strictly before `b` by date, then description.
pub open spec fn key_lt(a: EntryView, b: EntryView) -> bool {
    text_lt(a.date, b.date) || (a.date == b.date && text_lt(a.description, b.description))
}

/// Every entry of `p` comes strictly before the ones after it.
pub open spec fn strictly_sorted(p: Seq<EntryView>) -> bool {
    forall|i: int, j: int| 0 <= i < j < p.len() ==> key_lt(#[trigger] p[i], #[trigger] p[j])
}

proof fn lemma_key_lt_transitive(a: EntryView, b: EntryView, c: EntryView)
    requires
        key_lt(a, b),
        key_lt(b, c),
    ensures
        key_lt(a, c),
{
    if text_lt(a.date, b.date) && text_lt(b.date, c.date) {
        lemma_text_lt_transitive(a.date, b.date, c.date);
    }
    if a.date == b.date && b.date == c.date {
        lemma_text_lt_irreflexive(a.date);
        lemma_text_lt_transitive(a.description, b.description, c.description);
    }
}

proof fn lemma_key_lt_irreflexive(a: EntryView)
    ensures
        !key_lt(a, a),
{
    lemma_text_lt_irreflexive(a.date);
    lemma_text_lt_irreflexive(a.description);
}

proof fn lemma_line_counts_remove(lines: Seq<Seq<char>>, pos: int)
    requires
        0 <= pos < lines.len(),
    ensures
        ledger_entries(lines).len() == ledger_entries(lines.remove(pos)).len() + if line_entry(
            lines[pos],
        ) is Some {
            1int
        } else {
            0int
        },
        skipped_count(lines) == skipped_count(lines.remove(pos)) + if line_skipped(lines[pos]) {
            1int
        } else {
            0int
        },
    decreases lines.len(),
{
    if pos == lines.len() - 1 {
        assert(lines.remove(pos) =~= lines.drop_last());
    } else {
        lemma_line_counts_remove(lines.drop_last(), pos);
        assert(lines.remove(pos).drop_last() =~= lines.drop_last().remove(pos));
        assert(lines.remove(pos).last() == lines.last());
    }
}

proof fn lemma_entries_contains(lines: Seq<Seq<char>>, e: EntryView)
    ensures
        ledger_entries(lines).contains(e) <==> exists|j: int|
            0 <= j < lines.len() && line_entry(#[trigger] lines[j]) == Some(e),
    decreases lines.len(),
{
    if lines.len() > 0 {
        let init = lines.drop_last();
        lemma_entries_contains(init, e);
        let p = ledger_entries(lines);
        let q = ledger_entries(init);
        if q.contains(e) {
            let j = choose|j: int| 0 <= j < init.len() && line_entry(#[trigger] init[j]) == Some(e);
            assert(lines[j] == init[j]);
            let k = choose|k: int| 0 <= k < q.len() && q[k] == e;
            assert(p[k] == q[k]);
        }
        if line_entry(lines.last()) == Some(e) {
            assert(p[p.len() - 1] == e);
        }
        if exists|j: int| 0 <= j < lines.len() && line_entry(#[trigger] lines[j]) == Some(e) {
            let j = choose|j: int| 0 <= j < lines.len() && line_entry(#[trigger] lines[j]) == Some(e);
            if j < lines.len() - 1 {
                assert(init[j] == lines[j]);
            }
        }
        if p.contains(e) {
            let k = choose|k: int| 0 <= k < p.len() && p[k] == e;
            if k < q.len() {
                assert(q[k] == p[k]);
            }
        }
    }
}

/// Counts of lines do not depend on their order.
proof fn lemma_rearranged_line_counts(u: Seq<Seq<char>>, v: Seq<Seq<char>>, perm: Seq<int>)
    requires
        rearranges(u, v, perm),
    ensures
        ledger_entries(u).len() == ledger_entries(v).len(),
        skipped_count(u) == skipped_count(v),
    decreases v.len(),
{
    if v.len() > 0 {
        let pos = lemma_rearranges_remove_last(u, v, perm);
        lemma_rearranged_line_counts(u.remove(pos), v.drop_last(), perm.remove(pos));
        lemma_line_counts_remove(u, pos);
        lemma_line_counts_remove(v, v.len() - 1);
        assert(v.remove(v.len() - 1) =~= v.drop_last());
    }
}

/// Strictly sorted sequences with the same elements are equal.
proof fn lemma_strictly_sorted_unique(a: Seq<EntryView>, b: Seq<EntryView>)
    requires
        strictly_sorted(a),
        strictly_sorted(b),
        forall|x: EntryView| a.contains(x) <==> b.contains(x),
    ensures
        a == b,
    decreases a.len(),
{
    if a.len() == 0 {
        if b.len() > 0 {
            assert(b.contains(b[0]));
        }
        assert(a =~= b);
    } else {
        assert(a.contains(a[0]));
        let la = a.last();
        let lb = b.last();
        assert(a.contains(la));
        let j = choose|j: int| 0 <= j < b.len() && b[j] == la;
        assert(b.contains(lb));
        let k = choose|k: int| 0 <= k < a.len() && a[k] == lb;
        if j < b.len() - 1 {
            assert(key_lt(la, lb));
            if k < a.len() - 1 {
                assert(key_lt(lb, la));
                lemma_key_lt_transitive(la, lb, la);
            }
            lemma_key_lt_irreflexive(la);
        }
        let a2 = a.drop_last();
        let b2 = b.drop_last();
        assert forall|x: EntryView| a2.contains(x) <==> b2.contains(x) by {
            if a2.contains(x) {
                let i = choose|i: int| 0 <= i < a2.len() && a2[i] == x;
                assert(key_lt(a[i], la));
                lemma_key_lt_irreflexive(la);
                assert(a.contains(x));
                let m = choose|m: int| 0 <= m < b.len() && b[m] == x;
                if m == b.len() - 1 {
                    assert(x == la);
                }
                assert(b2[m] == x);
            }
            if b2.contains(x) {
                let i = choose|i: int| 0 <= i < b2.len() && b2[i] == x;
                assert(key_lt(b[i], lb));
                lemma_key_lt_irreflexive(lb);
                assert(b.contains(x));
                let m = choose|m: int| 0 <= m < a.len() && a[m] == x;
                if m == a.len() - 1 {
                    assert(x == lb);
                }
                assert(a2[m] == x);
            }
        }
        lemma_strictly_sorted_unique(a2, b2);
        assert(a =~= a2.push(la));
        assert(b =~= b2.push(lb));
    }
}

/// A stable sort of entries with distinct keys is strictly sorted and holds
/// the same entries.
proof fn lemma_sorted_distinct(out: Seq<EntryView>, p: Seq<EntryView>)
    requires
        is_stable_sort(out, p, entry_order()),
        distinct_keys(p),
    ensures
        strictly_sorted(out),
        forall|x: EntryView| out.contains(x) <==> p.contains(x),
{
    let perm = choose|perm: Seq<int>| stable_arrangement(out, p, perm, entry_order());
    lemma_perm_onto(perm, p.len() as int);
    assert forall|i: int, j: int| 0 <= i < j < out.len() implies key_lt(#[trigger] out[i], #[trigger] out[j]) by {
        assert(entry_order()(out[i], out[j]));
        assert(perm[i] != perm[j]);
        if perm[i] < perm[j] {
            assert(!(p[perm[i]].date == p[perm[j]].date && p[perm[i]].description
                == p[perm[j]].description));
        } else {
            assert(!(p[perm[j]].date == p[perm[i]].date && p[perm[j]].description
                == p[perm[i]].description));
        }
    }
    assert forall|x: EntryView| out.contains(x) <==> p.contains(x) by {
        if out.contains(x) {
            let i = choose|i: int| 0 <= i < out.len() && out[i] == x;
            assert(p[perm[i]] == x);
        }
        if p.contains(x) {
            let j = choose|j: int| 0 <= j < p.len() && p[j] == x;
            assert(perm.contains(j));
            let i = choose|i: int| 0 <= i < perm.len() && perm[i] == j;
            assert(out[i] == x);
        }
    }
}

/// Entries of lines that are a rearrangement of other lines, the first with
/// distinct keys: the second have distinct keys too and are the same entries.
proof fn lemma_rearranged_entries(l1: Seq<Seq<char>>, l2: Seq<Seq<char>>, perm: Seq<int>)
    requires
        rearranges(l2, l1, perm),
        distinct_keys(ledger_entries(l1)),
    ensures
        distinct_keys(ledger_entries(l2)),
        forall|x: EntryView| ledger_entries(l1).contains(x) <==> ledger_entries(l2).contains(x),
{
    let p1 = ledger_entries(l1);
    let p2 = ledger_entries(l2);
    lemma_rearranged_line_counts(l2, l1, perm);
    lemma_perm_onto(perm, l1.len() as int);
    assert forall|x: EntryView| p1.contains(x) <==> p2.contains(x) by {
        lemma_entries_contains(l1, x);
        lemma_entries_contains(l2, x);
        if p1.contains(x) {
            let j = choose|j: int| 0 <= j < l1.len() && line_entry(#[trigger] l1[j]) == Some(x);
            assert(perm.contains(j));
            let i = choose|i: int| 0 <= i < perm.len() && perm[i] == j;
            assert(line_entry(l2[i]) == Some(x));
        }
        if p2.contains(x) {
            let i = choose|i: int| 0 <= i < l2.len() && line_entry(#[trigger] l2[i]) == Some(x);
            assert(line_entry(l1[perm[i]]) == Some(x));
        }
    }
    // The first entries have no duplicates, hence as many distinct values as
    // the second have entries: so the second have none either.
    assert(p1.no_duplicates()) by {
        assert forall|i: int, j: int| 0 <= i < p1.len() && 0 <= j < p1.len() && i != j implies p1[i]
            != p1[j] by {
            if i < j {
                assert(!(p1[i].date == p1[j].date && p1[i].description == p1[j].description));
            } else {
                assert(!(p1[j].date == p1[i].date && p1[j].description == p1[i].description));
            }
        }
    }
    p1.unique_seq_to_set();
    assert(p1.to_set() =~= p2.to_set());
    p2.lemma_cardinality_of_set();
    p2.lemma_no_dup_set_cardinality();
    assert forall|i: int, j: int| 0 <= i < j < p2.len() implies !(#[trigger] p2[i].date
        == #[trigger] p2[j].date && p2[i].description == p2[j].description) by {
        assert(p2[i] != p2[j]);
        assert(p2.contains(p2[i]) && p2.contains(p2[j]));
        let a = choose|a: int| 0 <= a < p1.len() && p1[a] == p2[i];
        let b = choose|b: int| 0 <= b < p1.len() && p1[b] == p2[j];
        if a < b {
            assert(!(p1[a].date == p1[b].date && p1[a].description == p1[b].description));
        } else if b < a {
            assert(!(p1[b].date == p1[a].date && p1[b].description == p1[a].description));
        }
    }
}

proof fn lemma_trim_start_front(s: Seq<char>)
    ensures
        trim_start(s).len() == 0 || !is_white_space(trim_start(s)[0]),
        exists|k: int| 0 <= k <= s.len() && #[trigger] s.skip(k) == trim_start(s),
    decreases s.len(),
{
    if s.len() > 0 && is_white_space(s[0]) {
        lemma_trim_start_front(s.drop_first());
        let k = choose|k: int| 0 <= k <= s.drop_first().len() && #[trigger] s.drop_first().skip(k)
            == trim_start(s.drop_first());
        assert(s.drop_first().skip(k) =~= s.skip(k + 1));
    } else {
        assert(s.skip(0) =~= s);
    }
}

proof fn lemma_trim_end_back(s: Seq<char>)
    ensures
        trim_end(s).len() == 0 || !is_white_space(trim_end(s).last()),
        exists|k: int| 0 <= k <= s.len() && #[trigger] s.take(k) == trim_end(s),
    decreases s.len(),
{
    if s.len() > 0 && is_white_space(s.last()) {
        lemma_trim_end_back(s.drop_last());
        let k = choose|k: int| 0 <= k <= s.drop_last().len() && #[trigger] s.drop_last().take(k)
            == trim_end(s.drop_last());
        assert(s.drop_last().take(k) =~= s.take(k));
    } else {
        assert(s.take(s.len() as int) =~= s);
    }
}

/// Trimming twice trims once.
pub proof fn lemma_trim_idempotent(s: Seq<char>)
    ensures
        trim(trim(s)) == trim(s),
{
    let a = trim_start(s);
    lemma_trim_start_front(s);
    lemma_trim_end_back(a);
    let t = trim_end(a);
    let k = choose|k: int| 0 <= k <= a.len() && #[trigger] a.take(k) == t;
    if t.len() > 0 {
        assert(t[0] == a[0]);
    }
    assert(trim_start(t) == t);
    assert(trim_end(t) == t);
}

/// The entries and counts of lines depend on the lines only once trimmed.
proof fn lemma_lines_trimmed(lines: Seq<Seq<char>>)
    ensures
        ledger_entries(trimmed_lines(lines)) == ledger_entries(lines),
        skipped_count(trimmed_lines(lines)) == skipped_count(lines),
    decreases lines.len(),
{
    if lines.len() > 0 {
        let t = trimmed_lines(lines);
        assert(t.drop_last() =~= trimmed_lines(lines.drop_last()));
        lemma_lines_trimmed(lines.drop_last());
        lemma_trim_idempotent(lines.last());
        assert(t.last() == trim(lines.last()));
    }
}

/// Every line of `lines`, trimmed.
pub open spec fn trimmed_lines(lines: Seq<Seq<char>>) -> Seq<Seq<char>> {
    lines.map_values(|l: Seq<char>| trim(l))
}

/// Law: the order of the ledger's lines does not matter, as long as no two
/// records share a date and a description. Ingesting a text whose trimmed
/// lines are those of another text in another order gives the same sorted
/// records and the same counts of lines, records and skipped lines. (Lines
/// are compared trimmed, so line endings with or without a carriage return
/// count alike.)
pub proof fn lemma_ingest_ignores_line_order(
    t1: Seq<char>,
    t2: Seq<char>,
    out1: Seq<EntryView>,
    out2: Seq<EntryView>,
)
    requires
        exists|perm: Seq<int>|
            rearranges(trimmed_lines(lines_of(t2)), trimmed_lines(lines_of(t1)), perm),
        distinct_keys(ledger_entries(lines_of(t1))),
        is_stable_sort(out1, ledger_entries(lines_of(t1)), entry_order()),
        is_stable_sort(out2, ledger_entries(lines_of(t2)), entry_order()),
    ensures
        out1 == out2,
        lines_of(t1).len() == lines_of(t2).len(),
        ledger_entries(lines_of(t1)).len() == ledger_entries(lines_of(t2)).len(),
        skipped_count(lines_of(t1)) == skipped_count(lines_of(t2)),
{
    let l1 = trimmed_lines(lines_of(t1));
    let l2 = trimmed_lines(lines_of(t2));
    let perm = choose|perm: Seq<int>| rearranges(l2, l1, perm);
    lemma_lines_trimmed(lines_of(t1));
    lemma_lines_trimmed(lines_of(t2));
    lemma_rearranged_line_counts(l2, l1, perm);
    lemma_rearranged_entries(l1, l2, perm);
    lemma_sorted_distinct(out1, ledger_entries(l1));
    lemma_sorted_distinct(out2, ledger_entries(l2));
    lemma_strictly_sorted_unique(out1, out2);
}
} // verus!
