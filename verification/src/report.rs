//! Analyzing records: exact totals per category, the largest expenses, the
//! covered dates of a set of records.
use vstd::prelude::*;

use crate::ledger::{Transaction, TransactionView};
use crate::order::{
    is_stable_sort, lemma_insert_stable, lemma_perm_onto, lemma_sorted_prefix, lemma_text_lt_irreflexive, lemma_text_lt_total, lemma_text_lt_transitive, stable_arrangement,
    text_eq, text_le, text_less, text_lt, total_preorder,
};
use crate::text::push_str;

verus! {

// ---------------------------------------------------------------------------
// Sums over records
// ---------------------------------------------------------------------------

/// The views of a sequence of transactions.
pub open spec fn tx_views(v: Seq<Transaction>) -> Seq<TransactionView> {
    v.map_values(|t: Transaction| t@)
}

/// The sum of all amounts, in cents.
pub open spec fn total_of(txs: Seq<TransactionView>) -> int
    decreases txs.len(),
{
    if txs.len() == 0 {
        0
    } else {
        total_of(txs.drop_last()) + txs.last().amount_cents
    }
}

/// The sum of the amounts in category `c`, in cents.
pub open spec fn category_total(txs: Seq<TransactionView>, c: Seq<char>) -> int
    decreases txs.len(),
{
    if txs.len() == 0 {
        0
    } else {
        category_total(txs.drop_last(), c) + if txs.last().category == c {
            txs.last().amount_cents as int
        } else {
            0
        }
    }
}

/// The number of records in category `c`.
pub open spec fn category_count(txs: Seq<TransactionView>, c: Seq<char>) -> nat
    decreases txs.len(),
{
    if txs.len() == 0 {
        0
    } else {
        category_count(txs.drop_last(), c) + if txs.last().category == c {
            1nat
        } else {
            0nat
        }
    }
}

/// Some record is in category `c`.
pub open spec fn has_category(txs: Seq<TransactionView>, c: Seq<char>) -> bool {
    exists|k: int| 0 <= k < txs.len() && #[trigger] txs[k].category == c
}

/// `x` is an `i64`.
pub open spec fn fits_i64(x: int) -> bool {
    i64::MIN <= x <= i64::MAX
}

/// Summing the records in order, overall and per category, stays within
/// `i64` at every step.
pub open spec fn sums_fit(txs: Seq<TransactionView>) -> bool {
    &&& forall|k: int| 0 <= k <= txs.len() ==> #[trigger] fits_i64(total_of(txs.take(k)))
    &&& forall|k: int|
        0 <= k < txs.len() ==> #[trigger] fits_i64(category_total(txs.take(k + 1), txs[k].category))
}

proof fn lemma_category_count_le(txs: Seq<TransactionView>, c: Seq<char>)
    ensures
        category_count(txs, c) <= txs.len(),
    decreases txs.len(),
{
    if txs.len() > 0 {
        lemma_category_count_le(txs.drop_last(), c);
    }
}

/// Decides `sums_fit` for the records.
pub fn sums_fit_exec(records: &Vec<Transaction>) -> (r: bool)
    ensures
        r == sums_fit(tx_views(records@)),
{
    let ghost txs = tx_views(records@);
    let mut total: i128 = 0;
    let mut k: usize = 0;
    let bound: i128 = 0x8000_0000_0000_0000;
    assert(txs.take(0) =~= Seq::<TransactionView>::empty());
    assert(fits_i64(total_of(txs.take(0))));
    while k < records.len()
        invariant
            0 <= k <= records.len(),
            txs == tx_views(records@),
            bound == 0x8000_0000_0000_0000,
            total == total_of(txs.take(k as int)),
            forall|j: int| 0 <= j <= k ==> #[trigger] fits_i64(total_of(txs.take(j))),
            forall|j: int|
                0 <= j < k ==> #[trigger] fits_i64(category_total(txs.take(j + 1), txs[j].category)),
        decreases records.len() - k,
    {
        assert(txs.take(k + 1).drop_last() =~= txs.take(k as int));
        assert(txs[k as int] == records@[k as int]@);
        assert(fits_i64(total_of(txs.take(k as int))));
        total = total + records[k].amount_cents as i128;
        if total < i64::MIN as i128 || total > i64::MAX as i128 {
            assert(!fits_i64(total_of(txs.take(k + 1))));
            return false;
        }
        let cat = records[k].category.as_str();
        let mut part: i128 = 0;
        let mut m: usize = 0;
        assert(txs.take(0) =~= Seq::<TransactionView>::empty());
        while m <= k
            invariant
                0 <= m <= k + 1,
                k < records.len(),
                txs == tx_views(records@),
                bound == 0x8000_0000_0000_0000,
                cat@ == txs[k as int].category,
                part == category_total(txs.take(m as int), cat@),
                -(m as int) * bound <= part <= (m as int) * bound,
            decreases k + 1 - m,
        {
            assert(txs.take(m + 1).drop_last() =~= txs.take(m as int));
            assert(txs[m as int] == records@[m as int]@);
            if text_eq(records[m].category.as_str(), cat) {
                part = part + records[m].amount_cents as i128;
            }
            m = m + 1;
        }
        if part < i64::MIN as i128 || part > i64::MAX as i128 {
            assert(!fits_i64(category_total(txs.take(k + 1), txs[k as int].category)));
            return false;
        }
        k = k + 1;
    }
    true
}

// ---------------------------------------------------------------------------
// Category totals and their ranking
// ---------------------------------------------------------------------------

/// The spending of one category: its total in cents and its number of
/// records.
#[derive(Debug, Clone, PartialEq, Eq)]
pub struct CategoryTotal {
    pub category: String,
    pub cents: i64,
    pub count: usize,
}

/// What a category total holds.
pub struct CategoryTotalView {
    pub category: Seq<char>,
    pub cents: i64,
    pub count: usize,
}

impl View for CategoryTotal {
    type V = CategoryTotalView;

    open spec fn view(&self) -> CategoryTotalView {
        CategoryTotalView { category: self.category@, cents: self.cents, count: self.count }
    }
}

/// The views of a sequence of category totals.
pub open spec fn total_views(v: Seq<CategoryTotal>) -> Seq<CategoryTotalView> {
    v.map_values(|c: CategoryTotal| c@)
}

/// `a` ranks above `b`: it has more cents, or as many and a name that comes
/// first.
pub open spec fn rank_before(a: CategoryTotalView, b: CategoryTotalView) -> bool {
    a.cents > b.cents || (a.cents == b.cents && text_lt(a.category, b.category))
}

/// `a` ranks above `b` or level with it.
pub open spec fn rank_le(a: CategoryTotalView, b: CategoryTotalView) -> bool {
    rank_before(a, b) || (a.cents == b.cents && a.category == b.category)
}

/// `rank_le` as a relation.
pub open spec fn rank_order() -> spec_fn(CategoryTotalView, CategoryTotalView) -> bool {
    |a: CategoryTotalView, b: CategoryTotalView| rank_le(a, b)
}

/// `ranked` lists every category of the records once, with its exact total
/// and count, from the largest total down (ties by name).
pub open spec fn is_category_ranking(
    ranked: Seq<CategoryTotalView>,
    txs: Seq<TransactionView>,
) -> bool {
    &&& forall|i: int|
        0 <= i < ranked.len() ==> (#[trigger] ranked[i]).cents == category_total(
            txs,
            ranked[i].category,
        ) && ranked[i].count == category_count(txs, ranked[i].category)
    &&& forall|i: int, j: int|
        0 <= i < j < ranked.len() ==> rank_before(#[trigger] ranked[i], #[trigger] ranked[j])
    &&& forall|c: Seq<char>|
        #[trigger] has_category(txs, c) <==> exists|i: int|
            0 <= i < ranked.len() && (#[trigger] ranked[i]).category == c
}

proof fn lemma_rank_order_total_preorder()
    ensures
        total_preorder(rank_order()),
{
    let le = rank_order();
    assert forall|a: CategoryTotalView, b: CategoryTotalView| #[trigger] le(a, b) || le(b, a) by {
        lemma_text_lt_total(a.category, b.category);
    }
    assert forall|a: CategoryTotalView, b: CategoryTotalView, c: CategoryTotalView|
        #[trigger] le(a, b) && #[trigger] le(b, c) implies le(a, c) by {
        if a.cents == b.cents && b.cents == c.cents && text_lt(a.category, b.category) && text_lt(
            b.category,
            c.category,
        ) {
            lemma_text_lt_transitive(a.category, b.category, c.category);
        }
    }
}

/// The accumulated totals of `txs[..k]`, one slot per category, in order of
/// first appearance (`slot[m]` is the slot of record `m`, `first[j]` a
/// record of slot `j`).
spec fn accumulated(
    acc: Seq<CategoryTotalView>,
    txs: Seq<TransactionView>,
    k: int,
    slot: Seq<int>,
    first: Seq<int>,
) -> bool {
    &&& slot.len() == k
    &&& first.len() == acc.len()
    &&& forall|j: int|
        0 <= j < acc.len() ==> (#[trigger] acc[j]).cents == category_total(
            txs.take(k),
            acc[j].category,
        ) && acc[j].count == category_count(txs.take(k), acc[j].category)
    &&& forall|i: int, j: int|
        0 <= i < j < acc.len() ==> (#[trigger] acc[i]).category != (#[trigger] acc[j]).category
    &&& forall|m: int|
        0 <= m < k ==> 0 <= #[trigger] slot[m] < acc.len() && acc[slot[m]].category
            == txs[m].category
    &&& forall|j: int|
        0 <= j < acc.len() ==> 0 <= #[trigger] first[j] < k && txs[first[j]].category
            == acc[j].category
}

fn copy_total(c: &CategoryTotal) -> (r: CategoryTotal)
    ensures
        r@ == c@,
{
    CategoryTotal { category: c.category.clone(), cents: c.cents, count: c.count }
}

/// The totals and counts of every category of the records, listed from the
/// largest total down.
pub fn rank_categories(records: &Vec<Transaction>) -> (ranked: Vec<CategoryTotal>)
    requires
        sums_fit(tx_views(records@)),
    ensures
        is_category_ranking(total_views(ranked@), tx_views(records@)),
{
    let ghost txs = tx_views(records@);
    let mut acc: Vec<CategoryTotal> = Vec::new();
    let ghost mut slot: Seq<int> = Seq::empty();
    let ghost mut first: Seq<int> = Seq::empty();
    let mut k: usize = 0;
    while k < records.len()
        invariant
            0 <= k <= records.len(),
            txs == tx_views(records@),
            sums_fit(txs),
            accumulated(total_views(acc@), txs, k as int, slot, first),
        decreases records.len() - k,
    {
        let ghost before = total_views(acc@);
        let ghost tk1 = txs.take(k + 1);
        assert(tk1.drop_last() =~= txs.take(k as int));
        assert(tk1.last() == txs[k as int]);
        assert(txs[k as int] == records@[k as int]@);
        assert(fits_i64(category_total(txs.take(k + 1), txs[k as int].category)));
        proof {
            lemma_category_count_le(tk1, txs[k as int].category);
        }
        let cat = records[k].category.as_str();
        let amount = records[k].amount_cents;
        let mut j: usize = 0;
        while j < acc.len() && !text_eq(acc[j].category.as_str(), cat)
            invariant
                0 <= j <= acc.len(),
                total_views(acc@) == before,
                k < txs.len(),
                cat@ == txs[k as int].category,
                forall|i: int| 0 <= i < j ==> (#[trigger] before[i]).category != cat@,
            decreases acc.len() - j,
        {
            assert(before[j as int] == acc@[j as int]@);
            j = j + 1;
        }
        if j < acc.len() {
            assert(before[j as int] == acc@[j as int]@);
            let c = &acc[j];
            let updated = CategoryTotal {
                category: c.category.clone(),
                cents: c.cents + amount,
                count: c.count + 1,
            };
            acc.set(j, updated);
            proof {
                slot = slot.push(j as int);
                let after = total_views(acc@);
                assert(after =~= before.update(j as int, updated@));
                assert forall|i: int| 0 <= i < after.len() implies (#[trigger] after[i]).cents
                    == category_total(tk1, after[i].category) && after[i].count == category_count(
                    tk1,
                    after[i].category,
                ) by {
                    if i != j {
                        assert(after[i] == before[i]);
                    }
                }
            }
        } else {
            let fresh = CategoryTotal {
                category: records[k].category.clone(),
                cents: amount,
                count: 1,
            };
            acc.push(fresh);
            proof {
                slot = slot.push(before.len() as int);
                first = first.push(k as int);
                let after = total_views(acc@);
                assert(after =~= before.push(fresh@));
                lemma_absent_total(txs.take(k as int), cat@, before, slot.drop_last());
                assert forall|i: int| 0 <= i < after.len() implies (#[trigger] after[i]).cents
                    == category_total(tk1, after[i].category) && after[i].count == category_count(
                    tk1,
                    after[i].category,
                ) by {
                    if i < before.len() {
                        assert(after[i] == before[i]);
                    }
                }
            }
        }
        k = k + 1;
    }
    assert(txs.take(records.len() as int) =~= txs);
    let ghost accv = total_views(acc@);
    // Rank the totals.
    let mut ranked: Vec<CategoryTotal> = Vec::new();
    let ghost mut perm: Seq<int> = Seq::empty();
    let mut n: usize = 0;
    assert(total_views(ranked@) =~= Seq::<CategoryTotalView>::empty());
    assert(accv.take(0) =~= Seq::<CategoryTotalView>::empty());
    while n < acc.len()
        invariant
            0 <= n <= acc.len(),
            accv == total_views(acc@),
            stable_arrangement(total_views(ranked@), accv.take(n as int), perm, rank_order()),
        decreases acc.len() - n,
    {
        let x = copy_total(&acc[n]);
        assert(x@ == accv[n as int]);
        let ghost old_r = total_views(ranked@);
        let mut pos = ranked.len();
        while pos > 0 && !rank_le_exec(&ranked[pos - 1], &x)
            invariant
                0 <= pos <= ranked.len(),
                total_views(ranked@) == old_r,
                forall|q: int| pos <= q < ranked.len() ==> !rank_le(#[trigger] ranked@[q]@, x@),
            decreases pos,
        {
            pos = pos - 1;
        }
        proof {
            lemma_rank_order_total_preorder();
            assert forall|q: int| pos <= q < old_r.len() implies !rank_order()(#[trigger] old_r[q], x@) by {
                assert(old_r[q] == ranked@[q]@);
            }
            if pos > 0 {
                assert(old_r[pos - 1] == ranked@[pos - 1]@);
                lemma_sorted_prefix(old_r, rank_order(), x@, pos as int);
            }
            lemma_insert_stable(old_r, accv.take(n as int), perm, rank_order(), x@, pos as int);
            perm = perm.insert(pos as int, n as int);
        }
        ranked.insert(pos, x);
        assert(total_views(ranked@) =~= old_r.insert(pos as int, x@));
        assert(accv.take(n + 1) =~= accv.take(n as int).push(x@));
        n = n + 1;
    }
    assert(accv.take(acc.len() as int) =~= accv);
    proof {
        lemma_ranking_from_accumulated(total_views(ranked@), accv, perm, txs, slot, first);
    }
    ranked
}

/// A category with no slot has nothing summed.
proof fn lemma_absent_total(
    txs: Seq<TransactionView>,
    c: Seq<char>,
    acc: Seq<CategoryTotalView>,
    slot: Seq<int>,
)
    requires
        slot.len() == txs.len(),
        forall|m: int|
            0 <= m < txs.len() ==> 0 <= #[trigger] slot[m] < acc.len() && acc[slot[m]].category
                == txs[m].category,
        forall|i: int| 0 <= i < acc.len() ==> (#[trigger] acc[i]).category != c,
    ensures
        category_total(txs, c) == 0,
        category_count(txs, c) == 0,
    decreases txs.len(),
{
    if txs.len() > 0 {
        let m = txs.len() - 1;
        assert(acc[slot[m]].category == txs[m].category);
        lemma_absent_total(txs.drop_last(), c, acc, slot.drop_last());
    }
}

proof fn lemma_ranking_from_accumulated(
    ranked: Seq<CategoryTotalView>,
    acc: Seq<CategoryTotalView>,
    perm: Seq<int>,
    txs: Seq<TransactionView>,
    slot: Seq<int>,
    first: Seq<int>,
)
    requires
        accumulated(acc, txs, txs.len() as int, slot, first),
        stable_arrangement(ranked, acc, perm, rank_order()),
    ensures
        is_category_ranking(ranked, txs),
{
    assert(txs.take(txs.len() as int) =~= txs);
    lemma_perm_onto(perm, acc.len() as int);
    assert forall|i: int| 0 <= i < ranked.len() implies (#[trigger] ranked[i]).cents == category_total(
        txs,
        ranked[i].category,
    ) && ranked[i].count == category_count(txs, ranked[i].category) by {
        assert(ranked[i] == acc[perm[i]]);
    }
    assert forall|i: int, j: int| 0 <= i < j < ranked.len() implies rank_before(
        #[trigger] ranked[i],
        #[trigger] ranked[j],
    ) by {
        assert(rank_order()(ranked[i], ranked[j]));
        assert(perm[i] != perm[j]);
        assert(acc[perm[i]].category != acc[perm[j]].category) by {
            if perm[i] < perm[j] {
                assert(acc[perm[i]].category != acc[perm[j]].category);
            } else {
                assert(acc[perm[j]].category != acc[perm[i]].category);
            }
        }
    }
    assert forall|c: Seq<char>| #[trigger] has_category(txs, c) implies exists|i: int|
        0 <= i < ranked.len() && (#[trigger] ranked[i]).category == c by {
        let m = choose|m: int| 0 <= m < txs.len() && #[trigger] txs[m].category == c;
        let j = slot[m];
        assert(perm.contains(j));
        let i = choose|i: int| 0 <= i < perm.len() && perm[i] == j;
        assert(ranked[i].category == c);
    }
    assert forall|c: Seq<char>|
        (exists|i: int| 0 <= i < ranked.len() && (#[trigger] ranked[i]).category == c) implies #[trigger] has_category(
        txs,
        c,
    ) by {
        let i = choose|i: int| 0 <= i < ranked.len() && (#[trigger] ranked[i]).category == c;
        let m = first[perm[i]];
        assert(txs[m].category == c);
    }
}

fn rank_le_exec(a: &CategoryTotal, b: &CategoryTotal) -> (r: bool)
    ensures
        r == rank_le(a@, b@),
{
    if a.cents != b.cents {
        return a.cents > b.cents;
    }
    text_less(a.category.as_str(), b.category.as_str()) || text_eq(
        a.category.as_str(),
        b.category.as_str(),
    )
}

/// The sum of the cents of `ranked`.
pub open spec fn ranked_cents(ranked: Seq<CategoryTotalView>) -> int
    decreases ranked.len(),
{
    if ranked.len() == 0 {
        0
    } else {
        ranked_cents(ranked.drop_last()) + ranked.last().cents
    }
}

/// The sum of the counts of `ranked`.
pub open spec fn ranked_count(ranked: Seq<CategoryTotalView>) -> int
    decreases ranked.len(),
{
    if ranked.len() == 0 {
        0
    } else {
        ranked_count(ranked.drop_last()) + ranked.last().count
    }
}


/// The categories of `ranked`, in order.
pub open spec fn ranked_names(ranked: Seq<CategoryTotalView>) -> Seq<Seq<char>> {
    ranked.map_values(|r: CategoryTotalView| r.category)
}

/// The sums, over the categories `names`, of their totals and counts in `txs`.
pub open spec fn sum_over(names: Seq<Seq<char>>, txs: Seq<TransactionView>) -> (int, int)
    decreases names.len(),
{
    if names.len() == 0 {
        (0, 0)
    } else {
        let (t, n) = sum_over(names.drop_last(), txs);
        (t + category_total(txs, names.last()), n + category_count(txs, names.last()))
    }
}

proof fn lemma_sum_over_step(names: Seq<Seq<char>>, txs: Seq<TransactionView>)
    requires
        txs.len() > 0,
        names.no_duplicates(),
    ensures
        sum_over(names, txs) == if names.contains(txs.last().category) {
            (
                sum_over(names, txs.drop_last()).0 + txs.last().amount_cents,
                sum_over(names, txs.drop_last()).1 + 1,
            )
        } else {
            sum_over(names, txs.drop_last())
        },
    decreases names.len(),
{
    if names.len() > 0 {
        let init = names.drop_last();
        assert(init.no_duplicates());
        lemma_sum_over_step(init, txs);
        assert(names.contains(txs.last().category) <==> (init.contains(txs.last().category)
            || names.last() == txs.last().category)) by {
            if names.contains(txs.last().category) {
                let i = choose|i: int| 0 <= i < names.len() && names[i] == txs.last().category;
                if i < names.len() - 1 {
                    assert(init[i] == names[i]);
                }
            }
            if init.contains(txs.last().category) {
                let i = choose|i: int| 0 <= i < init.len() && init[i] == txs.last().category;
                assert(names[i] == init[i]);
            }
        }
        if init.contains(txs.last().category) {
            let i = choose|i: int| 0 <= i < init.len() && init[i] == txs.last().category;
            assert(names[i] == init[i]);
            assert(names[i] != names[names.len() - 1]);
        }
    }
}

proof fn lemma_sum_over_total(names: Seq<Seq<char>>, txs: Seq<TransactionView>)
    requires
        names.no_duplicates(),
        forall|k: int| 0 <= k < txs.len() ==> names.contains(#[trigger] txs[k].category),
    ensures
        sum_over(names, txs) == (total_of(txs), txs.len() as int),
    decreases txs.len(),
{
    if txs.len() == 0 {
        lemma_sum_over_empty(names, txs);
    } else {
        let init = txs.drop_last();
        assert forall|k: int| 0 <= k < init.len() implies names.contains(#[trigger] init[k].category) by {
            assert(init[k] == txs[k]);
        }
        lemma_sum_over_total(names, init);
        assert(names.contains(txs[txs.len() - 1].category));
        lemma_sum_over_step(names, txs);
    }
}

proof fn lemma_sum_over_empty(names: Seq<Seq<char>>, txs: Seq<TransactionView>)
    requires
        txs.len() == 0,
    ensures
        sum_over(names, txs) == (0int, 0int),
    decreases names.len(),
{
    if names.len() > 0 {
        lemma_sum_over_empty(names.drop_last(), txs);
    }
}

proof fn lemma_ranked_sums(ranked: Seq<CategoryTotalView>, txs: Seq<TransactionView>)
    requires
        forall|i: int|
            0 <= i < ranked.len() ==> (#[trigger] ranked[i]).cents == category_total(
                txs,
                ranked[i].category,
            ) && ranked[i].count == category_count(txs, ranked[i].category),
    ensures
        (ranked_cents(ranked), ranked_count(ranked)) == sum_over(ranked_names(ranked), txs),
    decreases ranked.len(),
{
    if ranked.len() > 0 {
        let init = ranked.drop_last();
        assert forall|i: int| 0 <= i < init.len() implies (#[trigger] init[i]).cents == category_total(
            txs,
            init[i].category,
        ) && init[i].count == category_count(txs, init[i].category) by {
            assert(init[i] == ranked[i]);
        }
        lemma_ranked_sums(init, txs);
        assert(ranked_names(ranked).drop_last() =~= ranked_names(init));
        assert(ranked[ranked.len() - 1].cents == category_total(txs, ranked.last().category));
    }
}

/// Law: the category table accounts for every cent and every record. Summing
/// the totals of a ranking of the records' categories gives the total of all
/// records, and summing its counts gives their number.
pub proof fn lemma_ranking_adds_up(ranked: Seq<CategoryTotalView>, txs: Seq<TransactionView>)
    requires
        is_category_ranking(ranked, txs),
    ensures
        ranked_cents(ranked) == total_of(txs),
        ranked_count(ranked) == txs.len(),
{
    let names = ranked_names(ranked);
    assert(names.no_duplicates()) by {
        assert forall|i: int, j: int| 0 <= i < names.len() && 0 <= j < names.len() && i != j implies names[i]
            != names[j] by {
            if names[i] == names[j] {
                let (a, b) = if i < j {
                    (i, j)
                } else {
                    (j, i)
                };
                assert(rank_before(ranked[a], ranked[b]));
                assert(ranked[a].cents == ranked[b].cents);
                lemma_text_lt_irreflexive(ranked[a].category);
            }
        }
    }
    assert forall|k: int| 0 <= k < txs.len() implies names.contains(#[trigger] txs[k].category) by {
        assert(has_category(txs, txs[k].category));
        let i = choose|i: int| 0 <= i < ranked.len() && (#[trigger] ranked[i]).category == txs[k].category;
        assert(names[i] == ranked[i].category);
    }
    lemma_ranked_sums(ranked, txs);
    lemma_sum_over_total(names, txs);
}

// ---------------------------------------------------------------------------
// The largest expenses and the covered dates
// ---------------------------------------------------------------------------

/// Records ordered by amount, largest first.
pub open spec fn amount_le(a: TransactionView, b: TransactionView) -> bool {
    a.amount_cents >= b.amount_cents
}

/// `amount_le` as a relation.
pub open spec fn amount_order() -> spec_fn(TransactionView, TransactionView) -> bool {
    |a: TransactionView, b: TransactionView| amount_le(a, b)
}

/// A copy of a transaction.
pub fn copy_transaction(t: &Transaction) -> (r: Transaction)
    ensures
        r@ == t@,
{
    Transaction {
        date: t.date.clone(),
        description: t.description.clone(),
        amount_cents: t.amount_cents,
        category: t.category.clone(),
    }
}

/// The records from the largest amount down; records of equal amount keep
/// their order.
pub fn largest_first(records: &Vec<Transaction>) -> (top: Vec<Transaction>)
    ensures
        is_stable_sort(tx_views(top@), tx_views(records@), amount_order()),
{
    let ghost txs = tx_views(records@);
    let mut top: Vec<Transaction> = Vec::new();
    let ghost mut perm: Seq<int> = Seq::empty();
    let mut n: usize = 0;
    assert(tx_views(top@) =~= Seq::<TransactionView>::empty());
    assert(txs.take(0) =~= Seq::<TransactionView>::empty());
    assert(total_preorder(amount_order()));
    while n < records.len()
        invariant
            0 <= n <= records.len(),
            txs == tx_views(records@),
            total_preorder(amount_order()),
            stable_arrangement(tx_views(top@), txs.take(n as int), perm, amount_order()),
        decreases records.len() - n,
    {
        let x = copy_transaction(&records[n]);
        assert(x@ == txs[n as int]);
        let ghost old_t = tx_views(top@);
        let mut pos = top.len();
        while pos > 0 && top[pos - 1].amount_cents < x.amount_cents
            invariant
                0 <= pos <= top.len(),
                tx_views(top@) == old_t,
                forall|q: int| pos <= q < top.len() ==> !amount_le(#[trigger] top@[q]@, x@),
            decreases pos,
        {
            pos = pos - 1;
        }
        proof {
            assert forall|q: int| pos <= q < old_t.len() implies !amount_order()(#[trigger] old_t[q], x@) by {
                assert(old_t[q] == top@[q]@);
            }
            if pos > 0 {
                assert(old_t[pos - 1] == top@[pos - 1]@);
                lemma_sorted_prefix(old_t, amount_order(), x@, pos as int);
            }
            lemma_insert_stable(old_t, txs.take(n as int), perm, amount_order(), x@, pos as int);
            perm = perm.insert(pos as int, n as int);
        }
        top.insert(pos, x);
        assert(tx_views(top@) =~= old_t.insert(pos as int, x@));
        assert(txs.take(n + 1) =~= txs.take(n as int).push(x@));
        n = n + 1;
    }
    assert(txs.take(records.len() as int) =~= txs);
    top
}

/// `d` is the earliest date of the records.
pub open spec fn is_first_date(d: Seq<char>, txs: Seq<TransactionView>) -> bool {
    &&& exists|k: int| 0 <= k < txs.len() && #[trigger] txs[k].date == d
    &&& forall|k: int| 0 <= k < txs.len() ==> text_le(d, #[trigger] txs[k].date)
}

/// `d` is the latest date of the records.
pub open spec fn is_last_date(d: Seq<char>, txs: Seq<TransactionView>) -> bool {
    &&& exists|k: int| 0 <= k < txs.len() && #[trigger] txs[k].date == d
    &&& forall|k: int| 0 <= k < txs.len() ==> text_le(#[trigger] txs[k].date, d)
}

/// The earliest (`latest == false`) or latest date of the records.
fn extreme_date(records: &Vec<Transaction>, latest: bool) -> (d: String)
    requires
        records.len() > 0,
    ensures
        !latest ==> is_first_date(d@, tx_views(records@)),
        latest ==> is_last_date(d@, tx_views(records@)),
{
    let ghost txs = tx_views(records@);
    let mut best = records[0].date.clone();
    let ghost mut at: int = 0;
    assert(txs[0] == records@[0]@);
    let mut k: usize = 1;
    while k < records.len()
        invariant
            1 <= k <= records.len(),
            txs == tx_views(records@),
            0 <= at < k,
            txs[at].date == best@,
            !latest ==> forall|m: int| 0 <= m < k ==> text_le(best@, #[trigger] txs[m].date),
            latest ==> forall|m: int| 0 <= m < k ==> text_le(#[trigger] txs[m].date, best@),
        decreases records.len() - k,
    {
        assert(txs[k as int] == records@[k as int]@);
        let d = records[k].date.as_str();
        let better = if latest {
            text_less(best.as_str(), d)
        } else {
            text_less(d, best.as_str())
        };
        proof {
            lemma_text_lt_total(best@, d@);
            if better {
                assert forall|m: int| 0 <= m < k implies (if latest {
                    text_le(#[trigger] txs[m].date, d@)
                } else {
                    text_le(d@, txs[m].date)
                }) by {
                    if latest {
                        if text_lt(txs[m].date, best@) {
                            lemma_text_lt_transitive(txs[m].date, best@, d@);
                        }
                    } else {
                        if text_lt(best@, txs[m].date) {
                            lemma_text_lt_transitive(d@, best@, txs[m].date);
                        }
                    }
                }
            }
        }
        if better {
            best = records[k].date.clone();
            proof {
                at = k as int;
            }
        }
        k = k + 1;
    }
    best
}

/// Why records cannot be analyzed.
#[derive(Debug, Clone, PartialEq, Eq)]
pub enum AnalyzeError {
    /// There are no records to report on.
    EmptyDataset,
}

impl AnalyzeError {
    /// The message that reports this error.
    pub fn message(&self) -> (s: String)
        ensures
            s@ == crate::ledger::DATA_REL@ + " holds no records; refusing to emit an empty report"@,
    {
        let mut s = String::new();
        push_str(&mut s, crate::ledger::DATA_REL);
        push_str(&mut s, " holds no records; refusing to emit an empty report");
        s
    }
}

/// What the report shows of the records.
#[derive(Debug, Clone)]
pub struct SpendingSummary {
    pub record_count: usize,
    pub total_cents: i64,
    pub first_date: String,
    pub last_date: String,
    pub ranked: Vec<CategoryTotal>,
    pub top: Vec<Transaction>,
}

/// `s` summarizes the records `txs`: their number and total, their first
/// and last dates, the ranking of their categories, and the records from
/// the largest amount down.
pub open spec fn summarizes(s: SpendingSummary, txs: Seq<TransactionView>) -> bool {
    &&& s.record_count == txs.len()
    &&& s.total_cents == total_of(txs)
    &&& is_first_date(s.first_date@, txs)
    &&& is_last_date(s.last_date@, txs)
    &&& is_category_ranking(total_views(s.ranked@), txs)
    &&& is_stable_sort(tx_views(s.top@), txs, amount_order())
}

/// Summarizes the records for the report; refuses an empty set of records.
pub fn summarize_spending(records: &Vec<Transaction>) -> (r: Result<SpendingSummary, AnalyzeError>)
    requires
        sums_fit(tx_views(records@)),
    ensures
        match r {
            Ok(s) => records.len() > 0 && summarizes(s, tx_views(records@)),
            Err(e) => records.len() == 0 && e == AnalyzeError::EmptyDataset,
        },
{
    if records.len() == 0 {
        return Err(AnalyzeError::EmptyDataset);
    }
    let ghost txs = tx_views(records@);
    let mut total: i64 = 0;
    let mut k: usize = 0;
    assert(txs.take(0) =~= Seq::<TransactionView>::empty());
    while k < records.len()
        invariant
            0 <= k <= records.len(),
            txs == tx_views(records@),
            sums_fit(txs),
            total == total_of(txs.take(k as int)),
        decreases records.len() - k,
    {
        assert(txs.take(k + 1).drop_last() =~= txs.take(k as int));
        assert(txs[k as int] == records@[k as int]@);
        assert(fits_i64(total_of(txs.take(k + 1))));
        total = total + records[k].amount_cents;
        k = k + 1;
    }
    assert(txs.take(records.len() as int) =~= txs);
    let first_date = extreme_date(records, false);
    let last_date = extreme_date(records, true);
    let ranked = rank_categories(records);
    let top = largest_first(records);
    Ok(SpendingSummary { record_count: records.len(), total_cents: total, first_date, last_date, ranked, top })
}
/// Law: every figure of a summary can be checked against the records. The
/// category totals add up to the overall total, and the category counts to
/// the number of records.
pub proof fn lemma_summary_adds_up(s: SpendingSummary, txs: Seq<TransactionView>)
    requires
        summarizes(s, txs),
    ensures
        ranked_cents(total_views(s.ranked@)) == s.total_cents,
        ranked_count(total_views(s.ranked@)) == s.record_count,
{
    lemma_ranking_adds_up(total_views(s.ranked@), txs);
}

/// Law: the largest-expenses order is by signed amount, largest first (a
/// refund, being negative, comes after every expense): it holds the records
/// rearranged one for one, each amount at least every later one, and records
/// of equal amount in their original order.
pub proof fn lemma_largest_first_by_signed_amount(out: Seq<TransactionView>, inp: Seq<TransactionView>)
    requires
        is_stable_sort(out, inp, amount_order()),
    ensures
        out.len() == inp.len(),
        forall|i: int, j: int|
            0 <= i < j < out.len() ==> (#[trigger] out[i]).amount_cents >= (#[trigger] out[j]).amount_cents,
        exists|perm: Seq<int>|
            {
                &&& perm.len() == inp.len()
                &&& forall|i: int|
                    0 <= i < perm.len() ==> 0 <= #[trigger] perm[i] < inp.len() && out[i] == inp[perm[i]]
                &&& forall|i: int, j: int|
                    0 <= i < j < perm.len() ==> #[trigger] perm[i] != #[trigger] perm[j]
                &&& forall|i: int, j: int|
                    #![trigger perm[i], perm[j]]
                    0 <= i < j < out.len() && out[i].amount_cents == out[j].amount_cents ==> perm[i]
                        < perm[j]
            },
{
    let perm = choose|perm: Seq<int>| stable_arrangement(out, inp, perm, amount_order());
    assert forall|i: int, j: int| 0 <= i < j < out.len() implies (#[trigger] out[i]).amount_cents
        >= (#[trigger] out[j]).amount_cents by {
        assert(amount_order()(out[i], out[j]));
    }
    assert forall|i: int, j: int|
        #![trigger perm[i], perm[j]]
        0 <= i < j < out.len() && out[i].amount_cents == out[j].amount_cents implies perm[i] < perm[j] by {
        assert(amount_order()(out[j], out[i]));
    }
}

} // verus!
