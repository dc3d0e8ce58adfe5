//! Orders used by the ledger: the lexicographic order of text, and what it
//! means for one sequence to be the stable sort of another.
use vstd::prelude::*;

use crate::text::chars_of;

verus! {

// ---------------------------------------------------------------------------
// Lexicographic order of text
// ---------------------------------------------------------------------------

/// `a` comes strictly before `b` when compared character by character by
/// Unicode scalar value, a proper prefix coming first. This is the order of
/// `str`'s `<`: UTF-8 byte order agrees with scalar-value order.
pub open spec fn text_lt(a: Seq<char>, b: Seq<char>) -> bool
    decreases a.len(),
{
    if a.len() == 0 {
        b.len() > 0
    } else if b.len() == 0 {
        false
    } else if a[0] != b[0] {
        (a[0] as int) < (b[0] as int)
    } else {
        text_lt(a.drop_first(), b.drop_first())
    }
}

/// `a` comes before `b` or equals it.
pub open spec fn text_le(a: Seq<char>, b: Seq<char>) -> bool {
    text_lt(a, b) || a == b
}

pub proof fn lemma_text_lt_irreflexive(a: Seq<char>)
    ensures
        !text_lt(a, a),
    decreases a.len(),
{
    if a.len() > 0 {
        lemma_text_lt_irreflexive(a.drop_first());
    }
}

pub proof fn lemma_text_lt_total(a: Seq<char>, b: Seq<char>)
    ensures
        text_lt(a, b) || a == b || text_lt(b, a),
    decreases a.len(),
{
    if a.len() == 0 {
        if b.len() == 0 {
            assert(a =~= b);
        }
    } else if b.len() == 0 {
    } else if a[0] != b[0] {
        assert((a[0] as int) != (b[0] as int));
    } else {
        lemma_text_lt_total(a.drop_first(), b.drop_first());
        if a.drop_first() == b.drop_first() {
            assert(a.drop_first().len() == a.len() - 1);
            assert(b.drop_first().len() == b.len() - 1);
            assert forall|i: int| 0 <= i < a.len() implies a[i] == b[i] by {
                if i > 0 {
                    assert(a[i] == a.drop_first()[i - 1]);
                    assert(b[i] == b.drop_first()[i - 1]);
                }
            }
            assert(a =~= b);
        }
    }
}

pub proof fn lemma_text_lt_transitive(a: Seq<char>, b: Seq<char>, c: Seq<char>)
    requires
        text_lt(a, b),
        text_lt(b, c),
    ensures
        text_lt(a, c),
    decreases a.len(),
{
    if a.len() > 0 && a[0] == b[0] && b[0] == c[0] {
        lemma_text_lt_transitive(a.drop_first(), b.drop_first(), c.drop_first());
    }
}

/// `text_lt` compares what follows a common prefix.
proof fn lemma_text_lt_skip(a: Seq<char>, b: Seq<char>, i: int)
    requires
        0 <= i < a.len(),
        i < b.len(),
        a[i] == b[i],
    ensures
        text_lt(a.skip(i), b.skip(i)) == text_lt(a.skip(i + 1), b.skip(i + 1)),
{
    assert(a.skip(i).drop_first() =~= a.skip(i + 1));
    assert(b.skip(i).drop_first() =~= b.skip(i + 1));
}

/// Decides `text_lt(a@, b@)`.
pub fn text_less(a: &str, b: &str) -> (r: bool)
    ensures
        r == text_lt(a@, b@),
{
    let x = chars_of(a);
    let y = chars_of(b);
    let mut i: usize = 0;
    assert(x@.skip(0) =~= x@);
    assert(y@.skip(0) =~= y@);
    while i < x.len() && i < y.len() && x[i] == y[i]
        invariant
            0 <= i <= x.len(),
            i <= y.len(),
            x@ == a@,
            y@ == b@,
            text_lt(x@, y@) == text_lt(x@.skip(i as int), y@.skip(i as int)),
        decreases x.len() - i,
    {
        proof {
            lemma_text_lt_skip(x@, y@, i as int);
        }
        i = i + 1;
    }
    assert(x@.skip(i as int).len() == x.len() - i);
    assert(y@.skip(i as int).len() == y.len() - i);
    if i == x.len() {
        i < y.len()
    } else if i == y.len() {
        false
    } else {
        assert(x@.skip(i as int)[0] == x@[i as int]);
        assert(y@.skip(i as int)[0] == y@[i as int]);
        x[i] < y[i]
    }
}

/// Decides whether two strings hold the same characters.
pub fn text_eq(a: &str, b: &str) -> (r: bool)
    ensures
        r == (a@ == b@),
{
    let x = chars_of(a);
    let y = chars_of(b);
    if x.len() != y.len() {
        assert(x@.len() != y@.len());
        return false;
    }
    let mut i: usize = 0;
    while i < x.len()
        invariant
            0 <= i <= x.len(),
            x.len() == y.len(),
            x@ == a@,
            y@ == b@,
            forall|k: int| 0 <= k < i ==> x@[k] == y@[k],
        decreases x.len() - i,
    {
        if x[i] != y[i] {
            assert(x@[i as int] != y@[i as int]);
            return false;
        }
        i = i + 1;
    }
    assert(x@ =~= y@);
    true
}

// ---------------------------------------------------------------------------
// Stable sorting
// ---------------------------------------------------------------------------

/// `le` is total and transitive.
pub open spec fn total_preorder<T>(le: spec_fn(T, T) -> bool) -> bool {
    &&& forall|a: T, b: T| #[trigger] le(a, b) || le(b, a)
    &&& forall|a: T, b: T, c: T| #[trigger] le(a, b) && #[trigger] le(b, c) ==> le(a, c)
}

/// `out` is `inp` rearranged by `perm` (`out[i] == inp[perm[i]]`), in
/// `le` order, with elements that `le` does not separate kept in their
/// original relative order.
pub open spec fn stable_arrangement<T>(
    out: Seq<T>,
    inp: Seq<T>,
    perm: Seq<int>,
    le: spec_fn(T, T) -> bool,
) -> bool {
    &&& out.len() == inp.len()
    &&& perm.len() == inp.len()
    &&& forall|i: int|
        0 <= i < perm.len() ==> 0 <= #[trigger] perm[i] < inp.len() && out[i] == inp[perm[i]]
    &&& forall|i: int, j: int| 0 <= i < j < perm.len() ==> #[trigger] perm[i] != #[trigger] perm[j]
    &&& forall|i: int, j: int| 0 <= i < j < out.len() ==> le(#[trigger] out[i], #[trigger] out[j])
    &&& forall|i: int, j: int|
        #![trigger perm[i], perm[j]]
        0 <= i < j < out.len() && le(out[j], out[i]) ==> perm[i] < perm[j]
}

/// `out` is the stable sort of `inp` by `le`.
pub open spec fn is_stable_sort<T>(out: Seq<T>, inp: Seq<T>, le: spec_fn(T, T) -> bool) -> bool {
    exists|perm: Seq<int>| stable_arrangement(out, inp, perm, le)
}

/// Inserting a new last element of the input after every element that `le`
/// puts at or before it keeps the arrangement a stable sort.
pub proof fn lemma_insert_stable<T>(
    out: Seq<T>,
    inp: Seq<T>,
    perm: Seq<int>,
    le: spec_fn(T, T) -> bool,
    x: T,
    pos: int,
)
    requires
        stable_arrangement(out, inp, perm, le),
        total_preorder(le),
        0 <= pos <= out.len(),
        forall|k: int| 0 <= k < pos ==> le(#[trigger] out[k], x),
        forall|k: int| pos <= k < out.len() ==> !le(#[trigger] out[k], x),
    ensures
        stable_arrangement(out.insert(pos, x), inp.push(x), perm.insert(pos, inp.len() as int), le),
{
    let o2 = out.insert(pos, x);
    let i2 = inp.push(x);
    let p2 = perm.insert(pos, inp.len() as int);
    assert forall|i: int| 0 <= i < p2.len() implies 0 <= #[trigger] p2[i] < i2.len() && o2[i]
        == i2[p2[i]] by {
        if i < pos {
            assert(p2[i] == perm[i]);
        } else if i > pos {
            assert(p2[i] == perm[i - 1]);
        }
    }
    assert forall|i: int, j: int| 0 <= i < j < p2.len() implies #[trigger] p2[i] != #[trigger] p2[j] by {
        if i < pos && j > pos {
            assert(p2[j] == perm[j - 1]);
        } else if i > pos {
            assert(p2[i] == perm[i - 1] && p2[j] == perm[j - 1]);
        }
    }
    assert forall|i: int, j: int| 0 <= i < j < o2.len() implies le(#[trigger] o2[i], #[trigger] o2[j]) by {
        if i < pos && j == pos {
        } else if i < pos && j > pos {
            assert(o2[j] == out[j - 1]);
        } else if i == pos {
            assert(o2[j] == out[j - 1]);
            assert(!le(out[j - 1], x));
            assert(le(out[j - 1], x) || le(x, out[j - 1]));
        } else if i > pos {
            assert(o2[i] == out[i - 1] && o2[j] == out[j - 1]);
        }
    }
    assert forall|i: int, j: int|
        #![trigger p2[i], p2[j]]
        0 <= i < j < o2.len() && le(o2[j], o2[i]) implies p2[i] < p2[j] by {
        if i < pos && j == pos {
            assert(perm[i] < inp.len());
        } else if i < pos && j > pos {
            assert(o2[j] == out[j - 1] && p2[j] == perm[j - 1]);
        } else if i == pos {
            assert(o2[j] == out[j - 1]);
            assert(!le(out[j - 1], x));
        } else if i > pos {
            assert(o2[i] == out[i - 1] && o2[j] == out[j - 1]);
            assert(p2[i] == perm[i - 1] && p2[j] == perm[j - 1]);
        }
    }
}

/// Where the sorted prefix ends for a new element: every element before a
/// position whose predecessor is at or before `x` is itself at or before `x`.
pub proof fn lemma_sorted_prefix<T>(out: Seq<T>, le: spec_fn(T, T) -> bool, x: T, pos: int)
    requires
        total_preorder(le),
        0 < pos <= out.len(),
        le(out[pos - 1], x),
        forall|i: int, j: int| 0 <= i < j < out.len() ==> le(#[trigger] out[i], #[trigger] out[j]),
    ensures
        forall|k: int| 0 <= k < pos ==> le(#[trigger] out[k], x),
{
    assert forall|k: int| 0 <= k < pos implies le(#[trigger] out[k], x) by {
        if k < pos - 1 {
            assert(le(out[k], out[pos - 1]));
        }
    }
}

/// A rearrangement by an injective index map of the right length reaches
/// every index.
pub proof fn lemma_perm_onto(perm: Seq<int>, n: int)
    requires
        perm.len() == n,
        forall|i: int| 0 <= i < n ==> 0 <= #[trigger] perm[i] < n,
        forall|i: int, j: int| 0 <= i < j < n ==> #[trigger] perm[i] != #[trigger] perm[j],
    ensures
        forall|m: int| 0 <= m < n ==> #[trigger] perm.contains(m),
{
    assert(perm.no_duplicates()) by {
        assert forall|i: int, j: int| 0 <= i < perm.len() && 0 <= j < perm.len() && i != j implies perm[i]
            != perm[j] by {
            if i < j {
                assert(perm[i] != perm[j]);
            } else {
                assert(perm[j] != perm[i]);
            }
        }
    }
    perm.unique_seq_to_set();
    vstd::set_lib::lemma_int_range(0, n);
    let range = vstd::set_lib::set_int_range(0, n);
    assert(perm.to_set().subset_of(range)) by {
        assert forall|x: int| perm.to_set().contains(x) implies range.contains(x) by {
            let i = choose|i: int| 0 <= i < perm.len() && perm[i] == x;
        }
    }
    vstd::set_lib::lemma_subset_equality(perm.to_set(), range);
    assert forall|m: int| 0 <= m < n implies #[trigger] perm.contains(m) by {
        assert(range.contains(m));
        assert(perm.to_set().contains(m));
    }
}


/// Taking the last input element out of a stable arrangement leaves a stable
/// arrangement of the rest, with that element at the end of its run of
/// elements that `le` puts at or before it.
proof fn lemma_remove_last<T>(out: Seq<T>, inp: Seq<T>, perm: Seq<int>, le: spec_fn(T, T) -> bool) -> (pos: int)
    requires
        stable_arrangement(out, inp, perm, le),
        inp.len() > 0,
    ensures
        0 <= pos < out.len(),
        out[pos] == inp.last(),
        perm[pos] == inp.len() - 1,
        stable_arrangement(out.remove(pos), inp.drop_last(), perm.remove(pos), le),
        forall|q: int| 0 <= q < pos ==> le(#[trigger] out.remove(pos)[q], inp.last()),
        forall|q: int|
            pos <= q < out.len() - 1 ==> !le(#[trigger] out.remove(pos)[q], inp.last()),
{
    let n = inp.len() as int;
    lemma_perm_onto(perm, n);
    assert(perm.contains(n - 1));
    let pos = choose|i: int| 0 <= i < perm.len() && perm[i] == n - 1;
    let o2 = out.remove(pos);
    let i2 = inp.drop_last();
    let p2 = perm.remove(pos);
    assert forall|i: int| 0 <= i < p2.len() implies 0 <= #[trigger] p2[i] < i2.len() && o2[i] == i2[p2[i]] by {
        if i < pos {
            assert(p2[i] == perm[i] && perm[i] != perm[pos]);
        } else {
            assert(p2[i] == perm[i + 1] && perm[i + 1] != perm[pos]);
        }
    }
    assert forall|i: int, j: int| 0 <= i < j < p2.len() implies #[trigger] p2[i] != #[trigger] p2[j] by {
        if j < pos {
        } else if i < pos {
            assert(p2[j] == perm[j + 1]);
        } else {
            assert(p2[i] == perm[i + 1] && p2[j] == perm[j + 1]);
        }
    }
    assert forall|i: int, j: int| 0 <= i < j < o2.len() implies le(#[trigger] o2[i], #[trigger] o2[j]) by {
        if j < pos {
        } else if i < pos {
            assert(o2[j] == out[j + 1]);
        } else {
            assert(o2[i] == out[i + 1] && o2[j] == out[j + 1]);
        }
    }
    assert forall|i: int, j: int|
        #![trigger p2[i], p2[j]]
        0 <= i < j < o2.len() && le(o2[j], o2[i]) implies p2[i] < p2[j] by {
        if j < pos {
        } else if i < pos {
            assert(o2[j] == out[j + 1] && p2[j] == perm[j + 1]);
        } else {
            assert(o2[i] == out[i + 1] && o2[j] == out[j + 1]);
            assert(p2[i] == perm[i + 1] && p2[j] == perm[j + 1]);
        }
    }
    assert forall|q: int| 0 <= q < pos implies le(#[trigger] o2[q], inp.last()) by {
        assert(o2[q] == out[q]);
        assert(le(out[q], out[pos]));
    }
    assert forall|q: int| pos <= q < out.len() - 1 implies !le(#[trigger] o2[q], inp.last()) by {
        assert(o2[q] == out[q + 1]);
        if le(out[q + 1], out[pos]) {
            assert(perm[pos] < perm[q + 1]);
        }
    }
    pos
}

/// Law: the stable sort is unique. Any two stable sorts of the same input by
/// the same relation are equal, so a contract that says "the stable
/// sort of" determines the result.
pub proof fn lemma_stable_sort_unique<T>(out1: Seq<T>, out2: Seq<T>, inp: Seq<T>, le: spec_fn(T, T) -> bool)
    requires
        is_stable_sort(out1, inp, le),
        is_stable_sort(out2, inp, le),
    ensures
        out1 == out2,
    decreases inp.len(),
{
    let p1 = choose|p: Seq<int>| stable_arrangement(out1, inp, p, le);
    let p2 = choose|p: Seq<int>| stable_arrangement(out2, inp, p, le);
    if inp.len() == 0 {
        assert(out1 =~= out2);
    } else {
        let x = inp.last();
        let pos1 = lemma_remove_last(out1, inp, p1, le);
        let pos2 = lemma_remove_last(out2, inp, p2, le);
        let r1 = out1.remove(pos1);
        let r2 = out2.remove(pos2);
        lemma_stable_sort_unique(r1, r2, inp.drop_last(), le);
        if pos1 < pos2 {
            assert(!le(r1[pos1], x));
            assert(le(r2[pos1], x));
        } else if pos2 < pos1 {
            assert(!le(r2[pos2], x));
            assert(le(r1[pos2], x));
        }
        assert(out1 =~= r1.insert(pos1, x));
        assert(out2 =~= r2.insert(pos2, x));
    }
}
} // verus!
