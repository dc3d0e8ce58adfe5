//! Ingesting raw ledger text: one transaction per line, parsed into
//! records sorted by date and description.
use vstd::prelude::*;

use crate::amount::{clean_amount_chars, clean_amount_spec, decimal, push_decimal};
use crate::category::{categorize, category_of};
use crate::order::{
    is_stable_sort, lemma_insert_stable, lemma_sorted_prefix, lemma_text_lt_total,
    lemma_text_lt_transitive, stable_arrangement, text_eq, text_le, text_less, text_lt,
    total_preorder,
};
use crate::text::{
    chars_of, copy_range, is_ascii_digit, is_ascii_digit_spec, join_range, join_space, lowercase,
    push_str, split_char, split_on, split_state, split_whitespace, split_words, string_of, trim,
    trim_bounds, trim_chars, views, lines_of,
};

verus! {

/// Where the ingested records are stored, relative to the workspace.
pub const DATA_REL: &'static str = "data/transactions.json";

// ---------------------------------------------------------------------------
// Records
// ---------------------------------------------------------------------------

/// One parsed transaction. `amount_cents` is signed: expenses are positive.
#[derive(Debug, Clone, PartialEq, Eq)]
pub struct Transaction {
    pub date: String,
    pub description: String,
    pub amount_cents: i64,
    pub category: String,
}

/// What a transaction holds, as text and integers.
pub struct TransactionView {
    pub date: Seq<char>,
    pub description: Seq<char>,
    pub amount_cents: i64,
    pub category: Seq<char>,
}

impl View for Transaction {
    type V = TransactionView;

    open spec fn view(&self) -> TransactionView {
        TransactionView {
            date: self.date@,
            description: self.description@,
            amount_cents: self.amount_cents,
            category: self.category@,
        }
    }
}

/// A parsed ledger line whose amount is still its decimal text: the text
/// that becomes the record's integer cents.
#[derive(Debug, Clone, PartialEq, Eq)]
pub struct LedgerEntry {
    pub date: String,
    pub description: String,
    pub amount_text: String,
    pub category: String,
}

/// What a ledger entry holds, as text.
pub struct EntryView {
    pub date: Seq<char>,
    pub description: Seq<char>,
    pub amount_text: Seq<char>,
    pub category: Seq<char>,
}

impl View for LedgerEntry {
    type V = EntryView;

    open spec fn view(&self) -> EntryView {
        EntryView {
            date: self.date@,
            description: self.description@,
            amount_text: self.amount_text@,
            category: self.category@,
        }
    }
}

impl LedgerEntry {
    /// The transaction of this entry, once its amount text is in cents.
    pub fn into_transaction(self, amount_cents: i64) -> (t: Transaction)
        ensures
            t@.date == self@.date,
            t@.description == self@.description,
            t@.category == self@.category,
            t@.amount_cents == amount_cents,
    {
        Transaction {
            date: self.date,
            description: self.description,
            amount_cents,
            category: self.category,
        }
    }
}

/// Raw ledger text: one transaction per line.
#[derive(Debug, Clone)]
pub struct IngestInput {
    pub text: String,
}

/// What an ingest produced: where the records go, how many there are, and
/// how many lines could not be parsed.
#[derive(Debug, Clone, PartialEq, Eq)]
pub struct IngestOutput {
    pub data_path: String,
    pub record_count: usize,
    pub skipped_lines: usize,
}

/// The records of an ingest, sorted, with its summary.
#[derive(Debug, Clone)]
pub struct Ingested {
    pub entries: Vec<LedgerEntry>,
    pub output: IngestOutput,
}

/// Why an ingest produced nothing.
#[derive(Debug, Clone, PartialEq, Eq)]
pub enum IngestError {
    /// No line of the input yields a usable record.
    NoTransactions { line_count: usize },
}

/// The text of an ingest error.
pub open spec fn ingest_error_text(e: IngestError) -> Seq<char> {
    match e {
        IngestError::NoTransactions { line_count } => "no transactions parsed from "@ + decimal(
            line_count as nat,
        ) + " input line(s); nothing to ingest"@,
    }
}

impl IngestError {
    /// The message that reports this error.
    pub fn message(&self) -> (s: String)
        ensures
            s@ == ingest_error_text(*self),
    {
        match self {
            IngestError::NoTransactions { line_count } => {
                let mut s = String::new();
                push_str(&mut s, "no transactions parsed from ");
                push_decimal(&mut s, *line_count as u64);
                push_str(&mut s, " input line(s); nothing to ingest");
                s
            },
        }
    }
}

// ---------------------------------------------------------------------------
// Parsing one line
// ---------------------------------------------------------------------------

/// A `YYYY-MM-DD` token: ten characters, `-` at positions 4 and 7, ASCII
/// digits elsewhere.
pub open spec fn is_date(t: Seq<char>) -> bool {
    &&& t.len() == 10
    &&& forall|i: int|
        0 <= i < 10 ==> if i == 4 || i == 7 {
            #[trigger] t[i] == '-'
        } else {
            is_ascii_digit_spec(t[i])
        }
}

/// The tokens of a line: its comma-separated fields, each trimmed, when it
/// holds a comma; its white-space-separated words otherwise.
pub open spec fn line_tokens(line: Seq<char>) -> Seq<Seq<char>> {
    if line.contains(',') {
        split_char(line, ',').map_values(|t: Seq<char>| trim(t))
    } else {
        split_whitespace(line)
    }
}

/// The index of the first date token at or after `i`, or the number of
/// tokens when there is none.
pub open spec fn date_index_from(tokens: Seq<Seq<char>>, i: int) -> int
    decreases tokens.len() - i,
{
    if i < 0 || i >= tokens.len() {
        tokens.len() as int
    } else if is_date(tokens[i]) {
        i
    } else {
        date_index_from(tokens, i + 1)
    }
}

/// The index of the last token before `n` that holds a decimal amount, or
/// `-1` when there is none.
pub open spec fn amount_index_below(tokens: Seq<Seq<char>>, n: int) -> int
    decreases n,
{
    if n <= 0 || n > tokens.len() {
        -1
    } else if clean_amount_spec(tokens[n - 1]) is Some {
        n - 1
    } else {
        amount_index_below(tokens, n - 1)
    }
}

/// The entry of a line `date description amount`: the date is the first
/// `YYYY-MM-DD` token, the amount the last token that holds a decimal
/// number, and the description the tokens strictly between them, joined by
/// single spaces. A line without such a date before such an amount, or with
/// an empty description, yields nothing.
pub open spec fn parse_line_spec(line: Seq<char>) -> Option<EntryView> {
    let tokens = line_tokens(line);
    let d = date_index_from(tokens, 0);
    let a = amount_index_below(tokens, tokens.len() as int);
    if d >= a {
        None
    } else {
        let description = join_space(tokens.subrange(d + 1, a));
        if description.len() == 0 {
            None
        } else {
            Some(
                EntryView {
                    date: tokens[d],
                    description,
                    amount_text: clean_amount_spec(tokens[a])->0,
                    category: category_of(lowercase(description)),
                },
            )
        }
    }
}

fn is_date_chars(t: &Vec<char>) -> (r: bool)
    ensures
        r == is_date(t@),
{
    if t.len() != 10 {
        return false;
    }
    let mut i: usize = 0;
    while i < 10
        invariant
            0 <= i <= 10,
            t.len() == 10,
            forall|k: int|
                0 <= k < i ==> if k == 4 || k == 7 {
                    #[trigger] t@[k] == '-'
                } else {
                    is_ascii_digit_spec(t@[k])
                },
        decreases 10 - i,
    {
        let ok = if i == 4 || i == 7 {
            t[i] == '-'
        } else {
            is_ascii_digit(t[i])
        };
        if !ok {
            assert(!(if i == 4 || i == 7 {
                t@[i as int] == '-'
            } else {
                is_ascii_digit_spec(t@[i as int])
            }));
            return false;
        }
        i = i + 1;
    }
    true
}

/// Whether `token` is a `YYYY-MM-DD` date.
pub fn looks_like_date(token: &str) -> (r: bool)
    ensures
        r == is_date(token@),
{
    let t = chars_of(token);
    is_date_chars(&t)
}

fn has_char(v: &Vec<char>, c: char) -> (r: bool)
    ensures
        r == v@.contains(c),
{
    let mut i: usize = 0;
    while i < v.len()
        invariant
            0 <= i <= v.len(),
            forall|k: int| 0 <= k < i ==> v@[k] != c,
        decreases v.len() - i,
    {
        if v[i] == c {
            assert(v@[i as int] == c);
            return true;
        }
        i = i + 1;
    }
    false
}

fn line_tokens_exec(line: &Vec<char>) -> (toks: Vec<Vec<char>>)
    ensures
        views(toks@) == line_tokens(line@),
{
    if has_char(line, ',') {
        let pieces = split_on(line, ',');
        let ghost want = split_char(line@, ',').map_values(|t: Seq<char>| trim(t));
        let mut toks: Vec<Vec<char>> = Vec::new();
        let mut i: usize = 0;
        while i < pieces.len()
            invariant
                0 <= i <= pieces.len(),
                views(pieces@) == split_char(line@, ','),
                want == split_char(line@, ',').map_values(|t: Seq<char>| trim(t)),
                toks.len() == i,
                forall|k: int| 0 <= k < i ==> (#[trigger] toks@[k])@ == want[k],
            decreases pieces.len() - i,
        {
            assert(views(pieces@)[i as int] == pieces@[i as int]@);
            let t = trim_chars(&pieces[i]);
            toks.push(t);
            i = i + 1;
        }
        assert(views(toks@) =~= want);
        toks
    } else {
        split_words(line)
    }
}

/// The index of the first date token of `toks`.
fn first_date_index(toks: &Vec<Vec<char>>) -> (d: usize)
    ensures
        d == date_index_from(views(toks@), 0),
{
    let ghost tokens = views(toks@);
    let mut d: usize = 0;
    while d < toks.len() && !is_date_chars(&toks[d])
        invariant
            0 <= d <= toks.len(),
            tokens == views(toks@),
            date_index_from(tokens, 0) == date_index_from(tokens, d as int),
        decreases toks.len() - d,
    {
        assert(tokens[d as int] == toks@[d as int]@);
        d = d + 1;
    }
    if d < toks.len() {
        assert(tokens[d as int] == toks@[d as int]@);
    }
    d
}

/// The index of the last amount token of `toks` with its decimal text.
fn last_amount(toks: &Vec<Vec<char>>) -> (r: Option<(usize, Vec<char>)>)
    ensures
        match r {
            Some((a, t)) => a < toks.len() && a == amount_index_below(views(toks@), toks.len() as int)
                && clean_amount_spec(views(toks@)[a as int]) == Some(t@),
            None => amount_index_below(views(toks@), toks.len() as int) == -1,
        },
{
    let ghost tokens = views(toks@);
    let mut n = toks.len();
    while n > 0
        invariant
            0 <= n <= toks.len(),
            tokens == views(toks@),
            amount_index_below(tokens, toks.len() as int) == amount_index_below(tokens, n as int),
        decreases n,
    {
        assert(tokens[n - 1] == toks@[n - 1]@);
        match clean_amount_chars(&toks[n - 1]) {
            Some(t) => {
                return Some((n - 1, t));
            },
            None => {},
        }
        n = n - 1;
    }
    None
}

/// The entry of one (trimmed) ledger line, as `parse_line_spec` describes.
pub fn parse_line_chars(line: &Vec<char>) -> (r: Option<LedgerEntry>)
    ensures
        match r {
            Some(e) => parse_line_spec(line@) == Some(e@),
            None => parse_line_spec(line@) is None,
        },
{
    let toks = line_tokens_exec(line);
    let ghost tokens = line_tokens(line@);
    let d = first_date_index(&toks);
    let (a, amount) = match last_amount(&toks) {
        Some(found) => found,
        None => {
            return None;
        },
    };
    if d >= a {
        return None;
    }
    assert(views(toks@)[d as int] == toks@[d as int]@);
    let desc = join_range(&toks, d + 1, a);
    if desc.len() == 0 {
        return None;
    }
    let description = string_of(&desc);
    let category = String::from_str(categorize(description.as_str()));
    let date = string_of(&toks[d]);
    let amount_text = string_of(&amount);
    let e = LedgerEntry { date, description, amount_text, category };
    assert(parse_line_spec(line@) == Some(e@));
    Some(e)
}

/// The entry of a ledger line `date description amount` (see
/// `parse_line_spec`).
pub fn parse_line(line: &str) -> (r: Option<LedgerEntry>)
    ensures
        match r {
            Some(e) => parse_line_spec(line@) == Some(e@),
            None => parse_line_spec(line@) is None,
        },
{
    let chars = chars_of(line);
    parse_line_chars(&chars)
}

// ---------------------------------------------------------------------------
// Ingesting a whole text
// ---------------------------------------------------------------------------

/// A trimmed line that is meant to hold a transaction: neither blank nor a
/// `#` comment.
pub open spec fn is_record_line(t: Seq<char>) -> bool {
    t.len() > 0 && t[0] != '#'
}

/// The entries of the lines that yield one, in line order.
pub open spec fn ledger_entries(lines: Seq<Seq<char>>) -> Seq<EntryView>
    decreases lines.len(),
{
    if lines.len() == 0 {
        Seq::empty()
    } else {
        let prev = ledger_entries(lines.drop_last());
        let t = trim(lines.last());
        if is_record_line(t) && parse_line_spec(t) is Some {
            prev.push(parse_line_spec(t)->0)
        } else {
            prev
        }
    }
}

/// The number of lines meant to hold a transaction that yield none.
pub open spec fn skipped_count(lines: Seq<Seq<char>>) -> nat
    decreases lines.len(),
{
    if lines.len() == 0 {
        0
    } else {
        let t = trim(lines.last());
        skipped_count(lines.drop_last()) + if is_record_line(t) && parse_line_spec(t) is None {
            1nat
        } else {
            0nat
        }
    }
}

/// The number of lines meant to hold a transaction.
pub open spec fn record_line_count(lines: Seq<Seq<char>>) -> nat
    decreases lines.len(),
{
    if lines.len() == 0 {
        0
    } else {
        record_line_count(lines.drop_last()) + if is_record_line(trim(lines.last())) {
            1nat
        } else {
            0nat
        }
    }
}

/// Every line meant to hold a transaction is either a record or skipped.
pub proof fn lemma_lines_accounted(lines: Seq<Seq<char>>)
    ensures
        ledger_entries(lines).len() + skipped_count(lines) == record_line_count(lines),
        record_line_count(lines) <= lines.len(),
    decreases lines.len(),
{
    if lines.len() > 0 {
        lemma_lines_accounted(lines.drop_last());
    }
}

/// Entries ordered by date, then by description.
pub open spec fn entry_le(a: EntryView, b: EntryView) -> bool {
    text_lt(a.date, b.date) || (a.date == b.date && text_le(a.description, b.description))
}

/// `entry_le` as a relation.
pub open spec fn entry_order() -> spec_fn(EntryView, EntryView) -> bool {
    |a: EntryView, b: EntryView| entry_le(a, b)
}

/// The views of a sequence of entries.
pub open spec fn entry_views(v: Seq<LedgerEntry>) -> Seq<EntryView> {
    v.map_values(|e: LedgerEntry| e@)
}

pub proof fn lemma_entry_order_total_preorder()
    ensures
        total_preorder(entry_order()),
{
    let le = entry_order();
    assert forall|a: EntryView, b: EntryView| #[trigger] le(a, b) || le(b, a) by {
        lemma_text_lt_total(a.date, b.date);
        lemma_text_lt_total(a.description, b.description);
    }
    assert forall|a: EntryView, b: EntryView, c: EntryView|
        #[trigger] le(a, b) && #[trigger] le(b, c) implies le(a, c) by {
        if text_lt(a.date, b.date) && text_lt(b.date, c.date) {
            lemma_text_lt_transitive(a.date, b.date, c.date);
        }
        if a.date == b.date && b.date == c.date && text_lt(a.description, b.description)
            && text_lt(b.description, c.description) {
            lemma_text_lt_transitive(a.description, b.description, c.description);
        }
    }
}

fn entry_le_exec(a: &LedgerEntry, b: &LedgerEntry) -> (r: bool)
    ensures
        r == entry_le(a@, b@),
{
    if text_less(a.date.as_str(), b.date.as_str()) {
        return true;
    }
    if !text_eq(a.date.as_str(), b.date.as_str()) {
        return false;
    }
    text_less(a.description.as_str(), b.description.as_str()) || text_eq(
        a.description.as_str(),
        b.description.as_str(),
    )
}

/// Takes in the line `text[lo..hi]`: a record goes into `out` in order, a
/// line that yields none counts as skipped.
fn take_line(
    text: &Vec<char>,
    lo: usize,
    hi: usize,
    out: &mut Vec<LedgerEntry>,
    skipped: &mut usize,
    Ghost(done): Ghost<Seq<Seq<char>>>,
    Ghost(perm): Ghost<Seq<int>>,
) -> (new_perm: Ghost<Seq<int>>)
    requires
        lo <= hi <= text.len(),
        done.len() < usize::MAX,
        *old(skipped) == skipped_count(done),
        stable_arrangement(entry_views(old(out)@), ledger_entries(done), perm, entry_order()),
    ensures
        *final(skipped) == skipped_count(done.push(text@.subrange(lo as int, hi as int))),
        stable_arrangement(
            entry_views(final(out)@),
            ledger_entries(done.push(text@.subrange(lo as int, hi as int))),
            new_perm@,
            entry_order(),
        ),
{
    let ghost line = text@.subrange(lo as int, hi as int);
    let ghost lines = done.push(line);
    assert(lines.drop_last() =~= done);
    proof {
        lemma_lines_accounted(done);
    }
    let (a, b) = trim_bounds(text, lo, hi);
    if a < b && text[a] != '#' {
        let t = copy_range(text, a, b);
        match parse_line_chars(&t) {
            Some(e) => {
                let ghost old_out = entry_views(out@);
                let ghost inp = ledger_entries(done);
                let mut pos = out.len();
                while pos > 0 && !entry_le_exec(&out[pos - 1], &e)
                    invariant
                        0 <= pos <= out.len(),
                        entry_views(out@) == old_out,
                        forall|k: int| pos <= k < out.len() ==> !entry_le(#[trigger] out@[k]@, e@),
                    decreases pos,
                {
                    pos = pos - 1;
                }
                proof {
                    lemma_entry_order_total_preorder();
                    assert forall|k: int| pos <= k < old_out.len() implies !entry_order()(
                        #[trigger] old_out[k],
                        e@,
                    ) by {
                        assert(old_out[k] == out@[k]@);
                    }
                    if pos > 0 {
                        assert(old_out[pos - 1] == out@[pos - 1]@);
                        lemma_sorted_prefix(old_out, entry_order(), e@, pos as int);
                    }
                    lemma_insert_stable(old_out, inp, perm, entry_order(), e@, pos as int);
                }
                let ghost np = perm.insert(pos as int, inp.len() as int);
                out.insert(pos, e);
                assert(entry_views(out@) =~= old_out.insert(pos as int, e@));
                assert(ledger_entries(lines) == inp.push(e@));
                Ghost(np)
            },
            None => {
                *skipped = *skipped + 1;
                Ghost(perm)
            },
        }
    } else {
        Ghost(perm)
    }
}

/// Parses raw ledger text into entries sorted by date, then description
/// (a stable sort: lines with the same date and description keep their
/// order). Blank lines and `#` comments are ignored; a line that yields no
/// entry is counted as skipped. Fails when no line yields an entry.
pub fn ingest_expenses(input: &IngestInput) -> (r: Result<Ingested, IngestError>)
    ensures
        ({
            let lines = lines_of(input.text@);
            let entries = ledger_entries(lines);
            match r {
                Ok(res) => {
                    &&& entries.len() > 0
                    &&& is_stable_sort(entry_views(res.entries@), entries, entry_order())
                    &&& res.output.record_count == entries.len()
                    &&& res.output.skipped_lines == skipped_count(lines)
                    &&& res.output.record_count + res.output.skipped_lines == record_line_count(
                        lines,
                    )
                    &&& res.output.data_path@ == DATA_REL@
                },
                Err(IngestError::NoTransactions { line_count }) => {
                    &&& entries.len() == 0
                    &&& line_count == lines.len()
                },
            }
        }),
{
    let text = chars_of(input.text.as_str());
    let mut out: Vec<LedgerEntry> = Vec::new();
    let ghost mut perm: Seq<int> = Seq::empty();
    let ghost mut done: Seq<Seq<char>> = Seq::empty();
    let mut skipped: usize = 0;
    let mut line_count: usize = 0;
    let mut start: usize = 0;
    let mut i: usize = 0;
    assert(entry_views(out@) =~= Seq::<EntryView>::empty());
    assert(text@.take(0) =~= Seq::<char>::empty());
    assert(text@.subrange(0, 0) =~= Seq::<char>::empty());
    while i < text.len()
        invariant
            0 <= start <= i <= text.len(),
            text@ == input.text@,
            split_state(text@.take(i as int), '\n') == (done, text@.subrange(start as int, i as int)),
            line_count == done.len(),
            done.len() <= start,
            skipped == skipped_count(done),
            stable_arrangement(entry_views(out@), ledger_entries(done), perm, entry_order()),
        decreases text.len() - i,
    {
        assert(text@.take(i + 1).drop_last() =~= text@.take(i as int));
        assert(text@.take(i + 1).last() == text@[i as int]);
        if text[i] == '\n' {
            let Ghost(np) = take_line(&text, start, i, &mut out, &mut skipped, Ghost(done), Ghost(perm));
            proof {
                done = done.push(text@.subrange(start as int, i as int));
                perm = np;
            }
            line_count = line_count + 1;
            start = i + 1;
            assert(text@.subrange(start as int, i + 1) =~= Seq::<char>::empty());
        } else {
            assert(text@.subrange(start as int, i + 1) =~= text@.subrange(start as int, i as int).push(
                text@[i as int],
            ));
        }
        i = i + 1;
    }
    assert(text@.take(text.len() as int) =~= text@);
    let ghost lines = lines_of(text@);
    if start < text.len() {
        let Ghost(np) = take_line(&text, start, text.len(), &mut out, &mut skipped, Ghost(done), Ghost(perm));
        proof {
            done = done.push(text@.subrange(start as int, text.len() as int));
            perm = np;
        }
        line_count = line_count + 1;
    }
    assert(done == lines);
    proof {
        lemma_lines_accounted(lines);
    }
    if out.len() == 0 {
        return Err(IngestError::NoTransactions { line_count });
    }
    assert(stable_arrangement(entry_views(out@), ledger_entries(lines), perm, entry_order()));
    let record_count = out.len();
    let output = IngestOutput {
        data_path: String::from_str(DATA_REL),
        record_count,
        skipped_lines: skipped,
    };
    Ok(Ingested { entries: out, output })
}


// ---------------------------------------------------------------------------
// Laws of a single line
// ---------------------------------------------------------------------------

/// Every character of `s` is an ASCII decimal digit.
pub open spec fn all_digits(s: Seq<char>) -> bool {
    forall|i: int| 0 <= i < s.len() ==> '0' <= #[trigger] s[i] && s[i] <= '9'
}

/// Law: any four ASCII digits, `-`, two digits, `-` and two digits make a
/// date token; the digits are not checked against a calendar.
pub proof fn lemma_digit_groups_are_dates(y: Seq<char>, m: Seq<char>, d: Seq<char>)
    requires
        y.len() == 4,
        m.len() == 2,
        d.len() == 2,
        all_digits(y),
        all_digits(m),
        all_digits(d),
    ensures
        is_date(y + seq!['-'] + m + seq!['-'] + d),
{
    let t = y + seq!['-'] + m + seq!['-'] + d;
    assert forall|i: int| 0 <= i < 10 implies (if i == 4 || i == 7 {
        #[trigger] t[i] == '-'
    } else {
        is_ascii_digit_spec(t[i])
    }) by {
        if i < 4 {
            assert(t[i] == y[i]);
        } else if 4 < i < 7 {
            assert(t[i] == m[i - 5]);
        } else if 7 < i {
            assert(t[i] == d[i - 8]);
        }
    }
}

/// Law: a date token is four ASCII digits, `-`, two digits, `-` and two
/// digits, and nothing else.
pub proof fn lemma_dates_are_digit_groups(t: Seq<char>)
    requires
        is_date(t),
    ensures
        t.len() == 10,
        t[4] == '-',
        t[7] == '-',
        all_digits(t.take(4)),
        all_digits(t.subrange(5, 7)),
        all_digits(t.subrange(8, 10)),
{
    assert(t[4] == '-');
    assert(t[7] == '-');
    assert forall|i: int| 0 <= i < 4 implies '0' <= #[trigger] t.take(4)[i] && t.take(4)[i] <= '9' by {
        assert(t.take(4)[i] == t[i]);
        assert(is_ascii_digit_spec(t[i]));
    }
    assert forall|i: int| 0 <= i < 2 implies '0' <= #[trigger] t.subrange(5, 7)[i] && t.subrange(5, 7)[i]
        <= '9' by {
        assert(t.subrange(5, 7)[i] == t[i + 5]);
        assert(is_ascii_digit_spec(t[i + 5]));
    }
    assert forall|i: int| 0 <= i < 2 implies '0' <= #[trigger] t.subrange(8, 10)[i] && t.subrange(8, 10)[i]
        <= '9' by {
        assert(t.subrange(8, 10)[i] == t[i + 8]);
        assert(is_ascii_digit_spec(t[i + 8]));
    }
}

proof fn lemma_date_index_from(tokens: Seq<Seq<char>>, i: int)
    requires
        0 <= i <= tokens.len(),
    ensures
        i <= date_index_from(tokens, i) <= tokens.len(),
        forall|k: int| i <= k < date_index_from(tokens, i) ==> !is_date(#[trigger] tokens[k]),
        date_index_from(tokens, i) < tokens.len() ==> is_date(tokens[date_index_from(tokens, i)]),
    decreases tokens.len() - i,
{
    if i < tokens.len() && !is_date(tokens[i]) {
        lemma_date_index_from(tokens, i + 1);
    }
}

proof fn lemma_amount_index_below(tokens: Seq<Seq<char>>, n: int)
    requires
        0 <= n <= tokens.len(),
    ensures
        -1 <= amount_index_below(tokens, n) < n,
        forall|k: int|
            amount_index_below(tokens, n) < k < n ==> clean_amount_spec(#[trigger] tokens[k]) is None,
        amount_index_below(tokens, n) >= 0 ==> clean_amount_spec(
            tokens[amount_index_below(tokens, n)],
        ) is Some,
    decreases n,
{
    if n > 0 && clean_amount_spec(tokens[n - 1]) is None {
        lemma_amount_index_below(tokens, n - 1);
    }
}

/// Law: where the fields of a line come from. Let `d` be the first token of
/// the line that is a date and `a` the last token that holds a decimal
/// number. The line yields an entry exactly when `d` comes before `a` and
/// the tokens strictly between them are not empty once joined; then the
/// entry's date is token `d`, its amount text the decimal number of token
/// `a`, its description the tokens strictly between them joined by single
/// spaces, and its category that of the lowercased description.
pub proof fn lemma_line_fields(line: Seq<char>, d: int, a: int)
    requires
        0 <= d < line_tokens(line).len(),
        is_date(line_tokens(line)[d]),
        forall|k: int| 0 <= k < d ==> !is_date(#[trigger] line_tokens(line)[k]),
        0 <= a < line_tokens(line).len(),
        clean_amount_spec(line_tokens(line)[a]) is Some,
        forall|k: int|
            a < k < line_tokens(line).len() ==> clean_amount_spec(#[trigger] line_tokens(line)[k]) is None,
    ensures
        ({
            let tokens = line_tokens(line);
            let description = join_space(tokens.subrange(d + 1, a));
            parse_line_spec(line) == if d < a && description.len() > 0 {
                Some(
                    EntryView {
                        date: tokens[d],
                        description,
                        amount_text: clean_amount_spec(tokens[a])->0,
                        category: category_of(lowercase(description)),
                    },
                )
            } else {
                None
            }
        }),
{
    let tokens = line_tokens(line);
    lemma_date_index_from(tokens, 0);
    lemma_amount_index_below(tokens, tokens.len() as int);
    let d2 = date_index_from(tokens, 0);
    let a2 = amount_index_below(tokens, tokens.len() as int);
    if d2 < d {
        assert(!is_date(tokens[d2]));
    }
    if d < d2 {
        assert(!is_date(tokens[d]));
    }
    if a2 < a {
        assert(clean_amount_spec(tokens[a]) is None);
    }
    if a < a2 {
        assert(clean_amount_spec(tokens[a2]) is None);
    }
}

/// Law: a line without a date token, or without a token that holds a
/// decimal number, yields no entry.
pub proof fn lemma_line_needs_date_and_amount(line: Seq<char>)
    requires
        (forall|k: int| 0 <= k < line_tokens(line).len() ==> !is_date(#[trigger] line_tokens(line)[k]))
            || (forall|k: int|
            0 <= k < line_tokens(line).len() ==> clean_amount_spec(#[trigger] line_tokens(line)[k])
                is None),
    ensures
        parse_line_spec(line) is None,
{
    let tokens = line_tokens(line);
    lemma_date_index_from(tokens, 0);
    lemma_amount_index_below(tokens, tokens.len() as int);
    let d2 = date_index_from(tokens, 0);
    let a2 = amount_index_below(tokens, tokens.len() as int);
    if d2 < tokens.len() && a2 >= 0 {
        assert(is_date(tokens[d2]));
        assert(clean_amount_spec(tokens[a2]) is Some);
    }
}
} // verus!
