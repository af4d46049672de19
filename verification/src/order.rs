use vstd::prelude::*;
use crate::text::lex_lt;

verus! {

// ---------------------------------------------------------------------------
// The order of texts
// ---------------------------------------------------------------------------

/// No text comes before itself.
pub proof fn lemma_lex_irreflexive(a: Seq<char>)
    ensures
        !lex_lt(a, a),
    decreases a.len(),
{
    if a.len() > 0 {
        lemma_lex_irreflexive(a.drop_first());
    }
}

/// Two texts never each come before the other.
pub proof fn lemma_lex_asymmetric(a: Seq<char>, b: Seq<char>)
    ensures
        !(lex_lt(a, b) && lex_lt(b, a)),
    decreases a.len(),
{
    if a.len() > 0 && b.len() > 0 && a[0] == b[0] {
        lemma_lex_asymmetric(a.drop_first(), b.drop_first());
    }
}

/// The order of texts is transitive.
pub proof fn lemma_lex_transitive(a: Seq<char>, b: Seq<char>, c: Seq<char>)
    requires
        lex_lt(a, b),
        lex_lt(b, c),
    ensures
        lex_lt(a, c),
    decreases a.len(),
{
    if a.len() > 0 && b.len() > 0 && c.len() > 0 && a[0] == b[0] && b[0] == c[0] {
        lemma_lex_transitive(a.drop_first(), b.drop_first(), c.drop_first());
    }
}

/// Of two different texts, one comes before the other.
pub proof fn lemma_lex_total(a: Seq<char>, b: Seq<char>)
    ensures
        a == b || lex_lt(a, b) || lex_lt(b, a),
    decreases a.len(),
{
    if a.len() > 0 && b.len() > 0 && a[0] == b[0] {
        lemma_lex_total(a.drop_first(), b.drop_first());
        if a.drop_first() == b.drop_first() {
            assert(a == seq![a[0]] + a.drop_first());
            assert(b == seq![b[0]] + b.drop_first());
        }
    } else if a.len() == 0 && b.len() == 0 {
        assert(a == b);
    }
}

// ---------------------------------------------------------------------------
// Stable insertion sort of positions
// ---------------------------------------------------------------------------

/// `x` put into `s` right after the last element that is ordered before or with it.
pub open spec fn insert_sorted(s: Seq<usize>, x: usize, le: spec_fn(usize, usize) -> bool) -> Seq<
    usize,
>
    decreases s.len(),
{
    if s.len() == 0 {
        seq![x]
    } else if le(s.last(), x) {
        s.push(x)
    } else {
        insert_sorted(s.drop_last(), x, le).push(s.last())
    }
}

/// The stable sort of `s` by `le`: elements that `le` ranks alike keep their order.
pub open spec fn sort_by(s: Seq<usize>, le: spec_fn(usize, usize) -> bool) -> Seq<usize>
    decreases s.len(),
{
    if s.len() == 0 {
        s
    } else {
        insert_sorted(sort_by(s.drop_last(), le), s.last(), le)
    }
}

/// The first `n` elements, or all of them where there are fewer.
pub open spec fn take_upto<T>(s: Seq<T>, n: int) -> Seq<T> {
    if n < s.len() {
        s.take(n)
    } else {
        s
    }
}

/// `insert_sorted` puts `x` at `j` where the element before `j` (if any) is at or
/// below `x` and none from `j` on is.
pub proof fn lemma_insert_sorted_at(
    s: Seq<usize>,
    x: usize,
    le: spec_fn(usize, usize) -> bool,
    j: int,
)
    requires
        0 <= j <= s.len(),
        forall|k: int| j <= k < s.len() ==> !le(#[trigger] s[k], x),
        j == 0 || le(s[j - 1], x),
    ensures
        insert_sorted(s, x, le) == s.insert(j, x),
    decreases s.len() - j,
{
    if s.len() == 0 {
        assert(s.insert(0, x) == seq![x]);
    } else if j == s.len() {
        assert(s.insert(j, x) == s.push(x));
    } else {
        let t = s.drop_last();
        assert(!le(s[s.len() - 1], x));
        assert forall|k: int| j <= k < t.len() implies !le(#[trigger] t[k], x) by {
            assert(t[k] == s[k]);
        }
        if j > 0 {
            assert(t[j - 1] == s[j - 1]);
        }
        lemma_insert_sorted_at(t, x, le, j);
        assert(t.insert(j, x).push(s.last()) == s.insert(j, x));
    }
}

/// Inserting adds one element, and every element is the new one or an old one.
pub proof fn lemma_insert_sorted_len(s: Seq<usize>, x: usize, le: spec_fn(usize, usize) -> bool)
    ensures
        insert_sorted(s, x, le).len() == s.len() + 1,
        forall|k: int|
            0 <= k < insert_sorted(s, x, le).len() ==> #[trigger] insert_sorted(s, x, le)[k] == x
                || s.contains(insert_sorted(s, x, le)[k]),
    decreases s.len(),
{
    if s.len() > 0 && !le(s.last(), x) {
        let t = s.drop_last();
        lemma_insert_sorted_len(t, x, le);
        let r = insert_sorted(t, x, le);
        assert forall|k: int|
            0 <= k < insert_sorted(s, x, le).len() implies #[trigger] insert_sorted(s, x, le)[k] == x
                || s.contains(insert_sorted(s, x, le)[k]) by {
            if k < r.len() {
                if r[k] != x {
                    let m = choose|m: int| 0 <= m < t.len() && t[m] == r[k];
                    assert(s[m] == r[k]);
                }
            } else {
                assert(s[s.len() - 1] == s.last());
            }
        }
    } else if s.len() > 0 {
        assert forall|k: int|
            0 <= k < insert_sorted(s, x, le).len() implies #[trigger] insert_sorted(s, x, le)[k] == x
                || s.contains(insert_sorted(s, x, le)[k]) by {
            if k < s.len() {
                assert(s[k] == insert_sorted(s, x, le)[k]);
            }
        }
    }
}

/// Sorting keeps the length, and every element of the result is one of the input.
pub proof fn lemma_sort_by_elements(s: Seq<usize>, le: spec_fn(usize, usize) -> bool)
    ensures
        sort_by(s, le).len() == s.len(),
        forall|k: int| 0 <= k < sort_by(s, le).len() ==> s.contains(#[trigger] sort_by(s, le)[k]),
    decreases s.len(),
{
    if s.len() > 0 {
        let t = s.drop_last();
        lemma_sort_by_elements(t, le);
        lemma_insert_sorted_len(sort_by(t, le), s.last(), le);
        let r = sort_by(s, le);
        assert forall|k: int| 0 <= k < r.len() implies s.contains(#[trigger] r[k]) by {
            if r[k] == s.last() {
                assert(s[s.len() - 1] == r[k]);
            } else {
                let st = sort_by(t, le);
                let m = choose|m: int| 0 <= m < st.len() && st[m] == r[k];
                let m2 = choose|m2: int| 0 <= m2 < t.len() && t[m2] == st[m];
                assert(s[m2] == r[k]);
            }
        }
    }
}


/// `le` orders any two elements one way or the other.
pub open spec fn total(le: spec_fn(usize, usize) -> bool) -> bool {
    forall|a: usize, b: usize| #[trigger] le(a, b) || le(b, a)
}

/// `le` is transitive.
pub open spec fn transitive(le: spec_fn(usize, usize) -> bool) -> bool {
    forall|a: usize, b: usize, c: usize| #[trigger] le(a, b) && #[trigger] le(b, c) ==> le(a, c)
}

/// Every element is ordered before or with every later one.
pub open spec fn sorted_by(s: Seq<usize>, le: spec_fn(usize, usize) -> bool) -> bool {
    forall|i: int, j: int| 0 <= i < j < s.len() ==> le(#[trigger] s[i], #[trigger] s[j])
}

proof fn lemma_insert_sorted_sorted(s: Seq<usize>, x: usize, le: spec_fn(usize, usize) -> bool)
    requires
        sorted_by(s, le),
        total(le),
        transitive(le),
    ensures
        sorted_by(insert_sorted(s, x, le), le),
    decreases s.len(),
{
    let r = insert_sorted(s, x, le);
    if s.len() == 0 {
    } else if le(s.last(), x) {
        assert forall|i: int, j: int| 0 <= i < j < r.len() implies le(#[trigger] r[i], #[trigger] r[j]) by {
            if j == s.len() {
                assert(r[j] == x);
                assert(r[i] == s[i]);
                if i < s.len() - 1 {
                    assert(le(s[i], s[s.len() - 1]));
                }
            } else {
                assert(r[i] == s[i] && r[j] == s[j]);
            }
        }
    } else {
        let t = s.drop_last();
        assert(sorted_by(t, le)) by {
            assert forall|i: int, j: int| 0 <= i < j < t.len() implies le(#[trigger] t[i], #[trigger] t[j]) by {
                assert(t[i] == s[i] && t[j] == s[j]);
            }
        }
        lemma_insert_sorted_sorted(t, x, le);
        lemma_insert_sorted_len(t, x, le);
        let q = insert_sorted(t, x, le);
        let last = s.last();
        assert(le(x, last));
        assert forall|i: int, j: int| 0 <= i < j < r.len() implies le(#[trigger] r[i], #[trigger] r[j]) by {
            if j == q.len() {
                assert(r[j] == last);
                assert(r[i] == q[i]);
                if q[i] != x {
                    let m = choose|m: int| 0 <= m < t.len() && t[m] == q[i];
                    assert(s[m] == q[i]);
                    assert(le(s[m], s[s.len() - 1]));
                }
            } else {
                assert(r[i] == q[i] && r[j] == q[j]);
            }
        }
    }
}

/// A stable insertion sort by a total, transitive order is sorted.
pub proof fn lemma_sort_by_sorted(s: Seq<usize>, le: spec_fn(usize, usize) -> bool)
    requires
        total(le),
        transitive(le),
    ensures
        sorted_by(sort_by(s, le), le),
    decreases s.len(),
{
    if s.len() > 0 {
        lemma_sort_by_sorted(s.drop_last(), le);
        lemma_insert_sorted_sorted(sort_by(s.drop_last(), le), s.last(), le);
    }
}

/// The first elements of a sorted sequence are sorted.
pub proof fn lemma_take_upto_sorted(s: Seq<usize>, n: int, le: spec_fn(usize, usize) -> bool)
    requires
        sorted_by(s, le),
        n >= 0,
    ensures
        sorted_by(take_upto(s, n), le),
{
    let t = take_upto(s, n);
    assert forall|i: int, j: int| 0 <= i < j < t.len() implies le(#[trigger] t[i], #[trigger] t[j]) by {
        assert(t[i] == s[i] && t[j] == s[j]);
    }
}

// ---------------------------------------------------------------------------
// Sorted sets of texts
// ---------------------------------------------------------------------------

/// `x` added to the sorted `s`, unless it is there already.
pub open spec fn insert_unique(s: Seq<Seq<char>>, x: Seq<char>) -> Seq<Seq<char>>
    decreases s.len(),
{
    if s.len() == 0 {
        seq![x]
    } else if s.last() == x {
        s
    } else if lex_lt(s.last(), x) {
        s.push(x)
    } else {
        insert_unique(s.drop_last(), x).push(s.last())
    }
}

/// The texts of `s`, sorted, each once (what `sort` then `dedup` leave).
pub open spec fn sort_unique(s: Seq<Seq<char>>) -> Seq<Seq<char>>
    decreases s.len(),
{
    if s.len() == 0 {
        s
    } else {
        insert_unique(sort_unique(s.drop_last()), s.last())
    }
}

/// Strictly increasing texts.
pub open spec fn strictly_sorted(s: Seq<Seq<char>>) -> bool {
    forall|i: int, j: int| 0 <= i < j < s.len() ==> lex_lt(#[trigger] s[i], #[trigger] s[j])
}

/// Inserting a text into strictly increasing texts at its place `j` keeps them as
/// they are where the text is already there, and inserts it at `j` otherwise.
pub proof fn lemma_insert_unique_at(s: Seq<Seq<char>>, x: Seq<char>, j: int)
    requires
        0 <= j <= s.len(),
        forall|k: int| j <= k < s.len() ==> #[trigger] s[k] != x && !lex_lt(s[k], x),
        j == 0 || s[j - 1] == x || lex_lt(s[j - 1], x),
    ensures
        insert_unique(s, x) == (if j > 0 && s[j - 1] == x {
            s
        } else {
            s.insert(j, x)
        }),
    decreases s.len() - j,
{
    if s.len() == 0 {
        assert(s.insert(0, x) == seq![x]);
    } else if j == s.len() {
        assert(s.insert(j, x) == s.push(x));
    } else {
        let t = s.drop_last();
        assert(s[s.len() - 1] != x && !lex_lt(s[s.len() - 1], x));
        assert forall|k: int| j <= k < t.len() implies #[trigger] t[k] != x && !lex_lt(t[k], x) by {
            assert(t[k] == s[k]);
        }
        if j > 0 {
            assert(t[j - 1] == s[j - 1]);
        }
        lemma_insert_unique_at(t, x, j);
        if j > 0 && s[j - 1] == x {
            assert(t.push(s.last()) == s);
        } else {
            assert(t.insert(j, x).push(s.last()) == s.insert(j, x));
        }
    }
}


/// Every text after inserting is the new one or an old one.
pub proof fn lemma_insert_unique_elements(s: Seq<Seq<char>>, x: Seq<char>)
    ensures
        forall|k: int|
            0 <= k < insert_unique(s, x).len() ==> #[trigger] insert_unique(s, x)[k] == x
                || s.contains(insert_unique(s, x)[k]),
        insert_unique(s, x).contains(x),
        forall|k: int| 0 <= k < s.len() ==> insert_unique(s, x).contains(#[trigger] s[k]),
    decreases s.len(),
{
    let r = insert_unique(s, x);
    if s.len() == 0 {
        assert(r[0] == x);
    } else if s.last() == x {
        assert(s[s.len() - 1] == x);
        assert forall|k: int| 0 <= k < s.len() implies r.contains(#[trigger] s[k]) by {
            assert(r[k] == s[k]);
        }
    } else if lex_lt(s.last(), x) {
        assert(r[s.len() as int] == x);
        assert forall|k: int| 0 <= k < r.len() implies #[trigger] r[k] == x || s.contains(r[k]) by {
            if k < s.len() {
                assert(s[k] == r[k]);
            }
        }
        assert forall|k: int| 0 <= k < s.len() implies r.contains(#[trigger] s[k]) by {
            assert(r[k] == s[k]);
        }
    } else {
        let t = s.drop_last();
        lemma_insert_unique_elements(t, x);
        let q = insert_unique(t, x);
        assert(r == q.push(s.last()));
        assert forall|k: int| 0 <= k < r.len() implies #[trigger] r[k] == x || s.contains(r[k]) by {
            if k < q.len() {
                if q[k] != x {
                    let m = choose|m: int| 0 <= m < t.len() && t[m] == q[k];
                    assert(s[m] == r[k]);
                }
            } else {
                assert(s[s.len() - 1] == r[k]);
            }
        }
        let m = choose|m: int| 0 <= m < q.len() && q[m] == x;
        assert(r[m] == x);
        assert forall|k: int| 0 <= k < s.len() implies r.contains(#[trigger] s[k]) by {
            if k < t.len() {
                assert(t[k] == s[k]);
                let m2 = choose|m2: int| 0 <= m2 < q.len() && q[m2] == t[k];
                assert(r[m2] == s[k]);
            } else {
                assert(r[q.len() as int] == s[k]);
            }
        }
    }
}

/// Every text of `sort_unique(s)` is a text of `s`, and the other way round.
pub proof fn lemma_sort_unique_elements(s: Seq<Seq<char>>)
    ensures
        forall|k: int| 0 <= k < sort_unique(s).len() ==> s.contains(#[trigger] sort_unique(s)[k]),
        forall|k: int| 0 <= k < s.len() ==> sort_unique(s).contains(#[trigger] s[k]),
    decreases s.len(),
{
    if s.len() > 0 {
        let t = s.drop_last();
        lemma_sort_unique_elements(t);
        let st = sort_unique(t);
        lemma_insert_unique_elements(st, s.last());
        let r = sort_unique(s);
        assert forall|k: int| 0 <= k < r.len() implies s.contains(#[trigger] r[k]) by {
            if r[k] == s.last() {
                assert(s[s.len() - 1] == r[k]);
            } else {
                let m = choose|m: int| 0 <= m < st.len() && st[m] == r[k];
                let m2 = choose|m2: int| 0 <= m2 < t.len() && t[m2] == st[m];
                assert(s[m2] == r[k]);
            }
        }
        assert forall|k: int| 0 <= k < s.len() implies r.contains(#[trigger] s[k]) by {
            if k < t.len() {
                assert(t[k] == s[k]);
                let m = choose|m: int| 0 <= m < st.len() && st[m] == t[k];
                assert(r.contains(st[m]));
            }
        }
    }
}


proof fn lemma_insert_unique_sorted(s: Seq<Seq<char>>, x: Seq<char>)
    requires
        strictly_sorted(s),
    ensures
        strictly_sorted(insert_unique(s, x)),
    decreases s.len(),
{
    let r = insert_unique(s, x);
    if s.len() == 0 {
    } else if s.last() == x {
    } else if lex_lt(s.last(), x) {
        assert forall|i: int, j: int| 0 <= i < j < r.len() implies lex_lt(#[trigger] r[i], #[trigger] r[j]) by {
            if j == s.len() {
                assert(r[i] == s[i]);
                if i < s.len() - 1 {
                    assert(lex_lt(s[i], s[s.len() - 1]));
                    lemma_lex_transitive(s[i], s.last(), x);
                }
            } else {
                assert(r[i] == s[i] && r[j] == s[j]);
            }
        }
    } else {
        let t = s.drop_last();
        assert(strictly_sorted(t)) by {
            assert forall|i: int, j: int| 0 <= i < j < t.len() implies lex_lt(#[trigger] t[i], #[trigger] t[j]) by {
                assert(t[i] == s[i] && t[j] == s[j]);
            }
        }
        lemma_insert_unique_sorted(t, x);
        lemma_insert_unique_elements(t, x);
        let q = insert_unique(t, x);
        let last = s.last();
        lemma_lex_total(last, x);
        assert(lex_lt(x, last));
        assert(r == q.push(last));
        assert forall|i: int, j: int| 0 <= i < j < r.len() implies lex_lt(#[trigger] r[i], #[trigger] r[j]) by {
            if j == q.len() {
                assert(r[i] == q[i]);
                if q[i] != x {
                    let m = choose|m: int| 0 <= m < t.len() && t[m] == q[i];
                    assert(s[m] == q[i]);
                    assert(lex_lt(s[m], s[s.len() - 1]));
                }
            } else {
                assert(r[i] == q[i] && r[j] == q[j]);
            }
        }
    }
}

/// `sort_unique` gives strictly increasing texts: sorted, and none twice.
pub proof fn lemma_sort_unique_sorted(s: Seq<Seq<char>>)
    ensures
        strictly_sorted(sort_unique(s)),
    decreases s.len(),
{
    if s.len() > 0 {
        lemma_sort_unique_sorted(s.drop_last());
        lemma_insert_unique_sorted(sort_unique(s.drop_last()), s.last());
    }
}

} // verus!
