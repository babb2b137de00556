//! Mathematical model of ordered offset-id sequences.
//!
//! Offset ids are `u32` values; every candidate set in this library is a
//! strictly ascending sequence of them. This module defines the counting,
//! merging and paging functions that the operator contracts are stated over,
//! together with the lemmas relating them.

use vstd::prelude::*;

verus! {

/// A strictly ascending sequence: no duplicates, sorted.
pub open spec fn sorted_strict(s: Seq<u32>) -> bool {
    forall|i: int, j: int| 0 <= i < j < s.len() ==> s[i] < s[j]
}

/// Number of elements of `s` strictly below `t`.
pub open spec fn cnt_lt(s: Seq<u32>, t: int) -> int
    decreases s.len(),
{
    if s.len() == 0 {
        0
    } else {
        (if (s[0] as int) < t {
            1int
        } else {
            0int
        }) + cnt_lt(s.drop_first(), t)
    }
}

/// No value occurs in both sequences.
pub open spec fn seqs_disjoint(a: Seq<u32>, b: Seq<u32>) -> bool {
    forall|x: u32| !(a.contains(x) && b.contains(x))
}

/// Every value of `b` also occurs in `a`.
pub open spec fn seq_subset(b: Seq<u32>, a: Seq<u32>) -> bool {
    forall|x: u32| b.contains(x) ==> a.contains(x)
}

/// Ascending union of two ascending sequences, with duplicates collapsed.
pub open spec fn sorted_merge(a: Seq<u32>, b: Seq<u32>) -> Seq<u32>
    decreases a.len() + b.len(),
{
    if a.len() == 0 {
        b
    } else if b.len() == 0 {
        a
    } else if a[0] < b[0] {
        seq![a[0]] + sorted_merge(a.drop_first(), b)
    } else if b[0] < a[0] {
        seq![b[0]] + sorted_merge(a, b.drop_first())
    } else {
        seq![a[0]] + sorted_merge(a.drop_first(), b.drop_first())
    }
}

/// Ascending difference: the elements of `a` that are not in `b`.
pub open spec fn sorted_diff(a: Seq<u32>, b: Seq<u32>) -> Seq<u32>
    decreases a.len() + b.len(),
{
    if a.len() == 0 {
        Seq::<u32>::empty()
    } else if b.len() == 0 {
        a
    } else if a[0] < b[0] {
        seq![a[0]] + sorted_diff(a.drop_first(), b)
    } else if b[0] < a[0] {
        sorted_diff(a, b.drop_first())
    } else {
        sorted_diff(a.drop_first(), b.drop_first())
    }
}

/// Insert `x` into the ascending sequence `s`, keeping it ascending;
/// a value already present is not duplicated.
pub open spec fn sorted_insert(s: Seq<u32>, x: u32) -> Seq<u32>
    decreases s.len(),
{
    if s.len() == 0 {
        seq![x]
    } else if x < s[0] {
        seq![x] + s
    } else if x == s[0] {
        s
    } else {
        seq![s[0]] + sorted_insert(s.drop_first(), x)
    }
}

/// The paged window of a candidate sequence: drop the smallest `skip`
/// elements, then keep at most `fetch` of the rest (all of them when
/// `fetch` is `None`).
pub open spec fn page(c: Seq<u32>, skip: int, fetch: Option<u32>) -> Seq<u32> {
    let start = if skip <= c.len() {
        skip
    } else {
        c.len() as int
    };
    let avail = c.len() - start;
    let take = match fetch {
        Some(f) => if f <= avail {
            f as int
        } else {
            avail
        },
        None => avail,
    };
    c.subrange(start, start + take)
}

pub proof fn lemma_cnt_lt_bounds(s: Seq<u32>, t: int)
    ensures
        0 <= cnt_lt(s, t) <= s.len(),
    decreases s.len(),
{
    if s.len() > 0 {
        lemma_cnt_lt_bounds(s.drop_first(), t);
    }
}

pub proof fn lemma_cnt_lt_mono(s: Seq<u32>, t1: int, t2: int)
    requires
        t1 <= t2,
    ensures
        cnt_lt(s, t1) <= cnt_lt(s, t2),
    decreases s.len(),
{
    if s.len() > 0 {
        lemma_cnt_lt_mono(s.drop_first(), t1, t2);
    }
}

pub proof fn lemma_cnt_lt_concat(a: Seq<u32>, b: Seq<u32>, t: int)
    ensures
        cnt_lt(a + b, t) == cnt_lt(a, t) + cnt_lt(b, t),
    decreases a.len(),
{
    if a.len() == 0 {
        assert(a + b =~= b);
    } else {
        assert((a + b).drop_first() =~= a.drop_first() + b);
        lemma_cnt_lt_concat(a.drop_first(), b, t);
    }
}

/// For an ascending sequence, `cnt_lt` is the partition index: the indices
/// below it hold exactly the elements below `t`.
pub proof fn lemma_cnt_lt_partition(s: Seq<u32>, t: int)
    requires
        sorted_strict(s),
    ensures
        forall|j: int| 0 <= j < s.len() ==> ((s[j] as int) < t <==> j < cnt_lt(s, t)),
    decreases s.len(),
{
    lemma_cnt_lt_bounds(s, t);
    if s.len() > 0 {
        let rest = s.drop_first();
        assert(sorted_strict(rest));
        lemma_cnt_lt_partition(rest, t);
        lemma_cnt_lt_bounds(rest, t);
        if (s[0] as int) < t {
            assert forall|j: int| 0 <= j < s.len() implies ((s[j] as int) < t <==> j < cnt_lt(
                s,
                t,
            )) by {
                if j > 0 {
                    assert(rest[j - 1] == s[j]);
                }
            }
        } else {
            // every element is at least s[0], hence at least t
            assert forall|j: int| 0 <= j < rest.len() implies !((rest[j] as int) < t) by {
                assert(rest[j] == s[j + 1]);
                assert(s[0] < s[j + 1]);
            }
            assert(cnt_lt(rest, t) == 0) by {
                if cnt_lt(rest, t) > 0 {
                    assert((rest[0] as int) < t);
                }
            }
            assert forall|j: int| 0 <= j < s.len() implies ((s[j] as int) < t <==> j < cnt_lt(
                s,
                t,
            )) by {
                if j > 0 {
                    assert(rest[j - 1] == s[j]);
                }
            }
        }
    }
}

/// In an ascending sequence, the rank of the element at index `i` is `i`.
pub proof fn lemma_cnt_lt_at_index(s: Seq<u32>, i: int)
    requires
        sorted_strict(s),
        0 <= i < s.len(),
    ensures
        cnt_lt(s, s[i] as int) == i,
{
    lemma_cnt_lt_partition(s, s[i] as int);
    lemma_cnt_lt_bounds(s, s[i] as int);
    let c = cnt_lt(s, s[i] as int);
    if c < i {
        assert(s[c] < s[i]);
    }
    if c > i {
        assert((s[i] as int) < s[i] as int);
    }
}

/// An ascending sequence whose rank at a contained value is `i` has that
/// value at index `i`.
pub proof fn lemma_cnt_lt_locate(s: Seq<u32>, x: u32, i: int)
    requires
        sorted_strict(s),
        s.contains(x),
        cnt_lt(s, x as int) == i,
    ensures
        0 <= i < s.len() && s[i] == x,
{
    let j = choose|j: int| 0 <= j < s.len() && s[j] == x;
    lemma_cnt_lt_at_index(s, j);
}

/// Counting below `t + 1` counts one more element exactly when `t` occurs.
pub proof fn lemma_cnt_lt_step(s: Seq<u32>, t: u32)
    requires
        sorted_strict(s),
    ensures
        cnt_lt(s, t as int + 1) == cnt_lt(s, t as int) + (if s.contains(t) {
            1int
        } else {
            0int
        }),
    decreases s.len(),
{
    if s.len() > 0 {
        let rest = s.drop_first();
        assert(sorted_strict(rest));
        lemma_cnt_lt_step(rest, t);
        if s[0] == t {
            // t cannot also occur in the rest of an ascending sequence
            assert(!rest.contains(t)) by {
                if rest.contains(t) {
                    let j = choose|j: int| 0 <= j < rest.len() && rest[j] == t;
                    assert(s[0] < s[j + 1]);
                }
            }
            assert(s.contains(t)) by {
                assert(s[0] == t);
            }
        } else {
            assert(s.contains(t) <==> rest.contains(t)) by {
                if s.contains(t) {
                    let j = choose|j: int| 0 <= j < s.len() && s[j] == t;
                    assert(rest[j - 1] == t);
                }
                if rest.contains(t) {
                    let j = choose|j: int| 0 <= j < rest.len() && rest[j] == t;
                    assert(s[j + 1] == t);
                }
            }
        }
    }
}

/// Every `u32` is below `0x1_0000_0000`, so that bound counts everything.
pub proof fn lemma_cnt_lt_full(s: Seq<u32>)
    ensures
        cnt_lt(s, 0x1_0000_0000) == s.len(),
    decreases s.len(),
{
    if s.len() > 0 {
        lemma_cnt_lt_full(s.drop_first());
    }
}

/// All elements below `t` means everything is counted.
pub proof fn lemma_cnt_lt_all_below(s: Seq<u32>, t: int)
    requires
        forall|i: int| 0 <= i < s.len() ==> (s[i] as int) < t,
    ensures
        cnt_lt(s, t) == s.len(),
    decreases s.len(),
{
    if s.len() > 0 {
        assert forall|i: int| 0 <= i < s.drop_first().len() implies (s.drop_first()[i] as int)
            < t by {
            assert(s.drop_first()[i] == s[i + 1]);
        }
        lemma_cnt_lt_all_below(s.drop_first(), t);
    }
}

pub proof fn lemma_merge_contains(a: Seq<u32>, b: Seq<u32>)
    ensures
        forall|x: u32| sorted_merge(a, b).contains(x) <==> (a.contains(x) || b.contains(x)),
    decreases a.len() + b.len(),
{
    if a.len() == 0 || b.len() == 0 {
    } else {
        let m = sorted_merge(a, b);
        if a[0] < b[0] {
            lemma_merge_contains(a.drop_first(), b);
            assert forall|x: u32| m.contains(x) <==> (a.contains(x) || b.contains(x)) by {
                lemma_cons_contains(a[0], sorted_merge(a.drop_first(), b), x);
                lemma_cons_contains(a[0], a.drop_first(), x);
                assert(seq![a[0]] + a.drop_first() =~= a);
            }
        } else if b[0] < a[0] {
            lemma_merge_contains(a, b.drop_first());
            assert forall|x: u32| m.contains(x) <==> (a.contains(x) || b.contains(x)) by {
                lemma_cons_contains(b[0], sorted_merge(a, b.drop_first()), x);
                lemma_cons_contains(b[0], b.drop_first(), x);
                assert(seq![b[0]] + b.drop_first() =~= b);
            }
        } else {
            lemma_merge_contains(a.drop_first(), b.drop_first());
            assert forall|x: u32| m.contains(x) <==> (a.contains(x) || b.contains(x)) by {
                lemma_cons_contains(a[0], sorted_merge(a.drop_first(), b.drop_first()), x);
                lemma_cons_contains(a[0], a.drop_first(), x);
                lemma_cons_contains(b[0], b.drop_first(), x);
                assert(seq![a[0]] + a.drop_first() =~= a);
                assert(seq![b[0]] + b.drop_first() =~= b);
            }
        }
    }
}

/// Membership in a sequence with one element prepended.
proof fn lemma_cons_contains(h: u32, r: Seq<u32>, x: u32)
    ensures
        (seq![h] + r).contains(x) <==> (x == h || r.contains(x)),
{
    let s = seq![h] + r;
    if s.contains(x) {
        let j = choose|j: int| 0 <= j < s.len() && s[j] == x;
        if j > 0 {
            assert(r[j - 1] == x);
        }
    }
    if x == h {
        assert(s[0] == x);
    }
    if r.contains(x) {
        let j = choose|j: int| 0 <= j < r.len() && r[j] == x;
        assert(s[j + 1] == x);
    }
}

pub proof fn lemma_merge_sorted(a: Seq<u32>, b: Seq<u32>)
    requires
        sorted_strict(a),
        sorted_strict(b),
    ensures
        sorted_strict(sorted_merge(a, b)),
    decreases a.len() + b.len(),
{
    if a.len() == 0 || b.len() == 0 {
    } else {
        let ra = a.drop_first();
        let rb = b.drop_first();
        assert(sorted_strict(ra));
        assert(sorted_strict(rb));
        if a[0] < b[0] {
            lemma_merge_sorted(ra, b);
            lemma_merge_contains(ra, b);
            lemma_rest_above_head(a);
            lemma_contains_ge_head(b);
            assert(!sorted_merge(ra, b).contains(a[0])) by {
                if sorted_merge(ra, b).contains(a[0]) {
                    assert(ra.contains(a[0]) || b.contains(a[0]));
                }
            }
            lemma_cons_sorted(a[0], sorted_merge(ra, b), a, b);
        } else if b[0] < a[0] {
            lemma_merge_sorted(a, rb);
            lemma_merge_contains(a, rb);
            lemma_rest_above_head(b);
            lemma_contains_ge_head(a);
            assert(!sorted_merge(a, rb).contains(b[0])) by {
                if sorted_merge(a, rb).contains(b[0]) {
                    assert(a.contains(b[0]) || rb.contains(b[0]));
                }
            }
            lemma_cons_sorted(b[0], sorted_merge(a, rb), a, b);
        } else {
            lemma_merge_sorted(ra, rb);
            lemma_merge_contains(ra, rb);
            lemma_rest_above_head(a);
            lemma_rest_above_head(b);
            lemma_rest_subset(a);
            lemma_rest_subset(b);
            assert(!sorted_merge(ra, rb).contains(a[0])) by {
                if sorted_merge(ra, rb).contains(a[0]) {
                    assert(ra.contains(a[0]) || rb.contains(a[0]));
                }
            }
            lemma_cons_sorted(a[0], sorted_merge(ra, rb), a, b);
        }
    }
}

/// In an ascending sequence, every element is at least the head.
proof fn lemma_contains_ge_head(s: Seq<u32>)
    requires
        sorted_strict(s),
        s.len() > 0,
    ensures
        forall|x: u32| s.contains(x) ==> x >= s[0],
{
    assert forall|x: u32| s.contains(x) implies x >= s[0] by {
        let j = choose|j: int| 0 <= j < s.len() && s[j] == x;
        if j > 0 {
            assert(s[0] < s[j]);
        }
    }
}

/// Dropping the head keeps membership.
proof fn lemma_rest_subset(s: Seq<u32>)
    requires
        s.len() > 0,
    ensures
        forall|x: u32| s.drop_first().contains(x) ==> s.contains(x),
{
    assert forall|x: u32| s.drop_first().contains(x) implies s.contains(x) by {
        let j = choose|j: int| 0 <= j < s.drop_first().len() && s.drop_first()[j] == x;
        assert(s[j + 1] == x);
    }
}

/// In an ascending sequence, everything after the head exceeds the head.
proof fn lemma_rest_above_head(s: Seq<u32>)
    requires
        sorted_strict(s),
        s.len() > 0,
    ensures
        forall|x: u32| s.drop_first().contains(x) ==> x > s[0],
{
    assert forall|x: u32| s.drop_first().contains(x) implies x > s[0] by {
        let j = choose|j: int| 0 <= j < s.drop_first().len() && s.drop_first()[j] == x;
        assert(s[j + 1] == x);
    }
}

/// Prepending a value below every element of `r` keeps the result ascending,
/// provided every element of `r` comes from `a` or `b` and exceeds `h`.
proof fn lemma_cons_sorted(h: u32, r: Seq<u32>, a: Seq<u32>, b: Seq<u32>)
    requires
        sorted_strict(r),
        forall|x: u32| r.contains(x) ==> (a.contains(x) || b.contains(x)),
        forall|x: u32| a.contains(x) ==> x >= h,
        forall|x: u32| b.contains(x) ==> x >= h,
        !r.contains(h),
    ensures
        sorted_strict(seq![h] + r),
{
    let s = seq![h] + r;
    assert forall|i: int, j: int| 0 <= i < j < s.len() implies s[i] < s[j] by {
        if i == 0 {
            assert(r.contains(r[j - 1])) by {
                assert(r[j - 1] == r[j - 1]);
            }
            assert(s[j] == r[j - 1]);
            assert(r[j - 1] >= h);
            assert(r[j - 1] != h);
        } else {
            assert(s[i] == r[i - 1] && s[j] == r[j - 1]);
        }
    }
}

pub proof fn lemma_cnt_lt_single(x: u32, t: int)
    ensures
        cnt_lt(seq![x], t) == (if (x as int) < t {
            1int
        } else {
            0int
        }),
{
    assert(seq![x].drop_first() =~= Seq::<u32>::empty());
    assert(cnt_lt(Seq::<u32>::empty(), t) == 0);
}

/// For disjoint sequences the union counts both sides.
pub proof fn lemma_merge_cnt(a: Seq<u32>, b: Seq<u32>, t: int)
    requires
        seqs_disjoint(a, b),
    ensures
        cnt_lt(sorted_merge(a, b), t) == cnt_lt(a, t) + cnt_lt(b, t),
    decreases a.len() + b.len(),
{
    if a.len() == 0 || b.len() == 0 {
    } else if a[0] == b[0] {
        assert(a.contains(a[0]) && b.contains(a[0])) by {
            assert(a[0] == a[0] && b[0] == a[0]);
        }
    } else {
        lemma_rest_subset(a);
        lemma_rest_subset(b);
        if a[0] < b[0] {
            assert(seqs_disjoint(a.drop_first(), b));
            lemma_merge_cnt(a.drop_first(), b, t);
            lemma_cnt_lt_concat(seq![a[0]], sorted_merge(a.drop_first(), b), t);
            lemma_cnt_lt_single(a[0], t);
        } else {
            assert(seqs_disjoint(a, b.drop_first()));
            lemma_merge_cnt(a, b.drop_first(), t);
            lemma_cnt_lt_concat(seq![b[0]], sorted_merge(a, b.drop_first()), t);
            lemma_cnt_lt_single(b[0], t);
        }
    }
}

pub proof fn lemma_diff_contains(a: Seq<u32>, b: Seq<u32>)
    requires
        sorted_strict(a),
        sorted_strict(b),
    ensures
        forall|x: u32| sorted_diff(a, b).contains(x) <==> (a.contains(x) && !b.contains(x)),
    decreases a.len() + b.len(),
{
    if a.len() == 0 {
    } else if b.len() == 0 {
    } else {
        let ra = a.drop_first();
        let rb = b.drop_first();
        assert(sorted_strict(ra));
        assert(sorted_strict(rb));
        lemma_rest_subset(a);
        lemma_rest_subset(b);
        lemma_rest_above_head(a);
        lemma_rest_above_head(b);
        lemma_contains_ge_head(a);
        lemma_contains_ge_head(b);
        if a[0] < b[0] {
            lemma_diff_contains(ra, b);
            assert forall|x: u32| sorted_diff(a, b).contains(x) <==> (a.contains(x)
                && !b.contains(x)) by {
                lemma_cons_contains(a[0], sorted_diff(ra, b), x);
                lemma_cons_contains(a[0], ra, x);
                assert(seq![a[0]] + ra =~= a);
            }
        } else if b[0] < a[0] {
            lemma_diff_contains(a, rb);
            assert forall|x: u32| sorted_diff(a, b).contains(x) <==> (a.contains(x)
                && !b.contains(x)) by {
                lemma_cons_contains(b[0], rb, x);
                assert(seq![b[0]] + rb =~= b);
                if x == b[0] {
                    // b's head is below all of a, so it is not in the difference
                    assert(!a.contains(x));
                }
            }
        } else {
            lemma_diff_contains(ra, rb);
            assert forall|x: u32| sorted_diff(a, b).contains(x) <==> (a.contains(x)
                && !b.contains(x)) by {
                assert(sorted_diff(ra, rb).contains(x) <==> (ra.contains(x) && !rb.contains(x)));
                lemma_cons_contains(a[0], ra, x);
                lemma_cons_contains(b[0], rb, x);
                assert(seq![a[0]] + ra =~= a);
                assert(seq![b[0]] + rb =~= b);
            }
        }
    }
}

pub proof fn lemma_diff_sorted(a: Seq<u32>, b: Seq<u32>)
    requires
        sorted_strict(a),
        sorted_strict(b),
    ensures
        sorted_strict(sorted_diff(a, b)),
    decreases a.len() + b.len(),
{
    if a.len() == 0 || b.len() == 0 {
    } else {
        let ra = a.drop_first();
        let rb = b.drop_first();
        assert(sorted_strict(ra));
        assert(sorted_strict(rb));
        if a[0] < b[0] {
            lemma_diff_sorted(ra, b);
            lemma_diff_contains(ra, b);
            lemma_rest_above_head(a);
            assert(!sorted_diff(ra, b).contains(a[0])) by {
                if sorted_diff(ra, b).contains(a[0]) {
                    assert(ra.contains(a[0]));
                }
            }
            lemma_cons_sorted(a[0], sorted_diff(ra, b), ra, Seq::<u32>::empty());
        } else if b[0] < a[0] {
            lemma_diff_sorted(a, rb);
        } else {
            lemma_diff_sorted(ra, rb);
        }
    }
}

/// When `b` is contained in `a`, removing it removes exactly its count.
pub proof fn lemma_diff_cnt(a: Seq<u32>, b: Seq<u32>, t: int)
    requires
        sorted_strict(a),
        sorted_strict(b),
        seq_subset(b, a),
    ensures
        cnt_lt(sorted_diff(a, b), t) == cnt_lt(a, t) - cnt_lt(b, t),
    decreases a.len() + b.len(),
{
    if a.len() == 0 {
        if b.len() > 0 {
            assert(b.contains(b[0])) by {
                assert(b[0] == b[0]);
            }
        }
    } else if b.len() == 0 {
    } else {
        let ra = a.drop_first();
        let rb = b.drop_first();
        assert(sorted_strict(ra));
        assert(sorted_strict(rb));
        lemma_rest_subset(a);
        lemma_rest_subset(b);
        lemma_rest_above_head(a);
        lemma_rest_above_head(b);
        lemma_contains_ge_head(a);
        lemma_contains_ge_head(b);
        if a[0] < b[0] {
            assert(seq_subset(b, ra)) by {
                assert forall|x: u32| b.contains(x) implies ra.contains(x) by {
                    assert(x >= b[0]);
                    let j = choose|j: int| 0 <= j < a.len() && a[j] == x;
                    assert(j > 0);
                    assert(ra[j - 1] == x);
                }
            }
            lemma_diff_cnt(ra, b, t);
            lemma_cnt_lt_concat(seq![a[0]], sorted_diff(ra, b), t);
            lemma_cnt_lt_single(a[0], t);
        } else if b[0] < a[0] {
            // impossible: b's head would be in a but below a's least element
            assert(b.contains(b[0])) by {
                assert(b[0] == b[0]);
            }
            assert(a.contains(b[0]));
            assert(b[0] >= a[0]);
        } else {
            assert(seq_subset(rb, ra)) by {
                assert forall|x: u32| rb.contains(x) implies ra.contains(x) by {
                    assert(x > b[0]);
                    assert(b.contains(x));
                    let j = choose|j: int| 0 <= j < a.len() && a[j] == x;
                    assert(j > 0);
                    assert(ra[j - 1] == x);
                }
            }
            lemma_diff_cnt(ra, rb, t);
        }
    }
}

pub proof fn lemma_insert_contains(s: Seq<u32>, x: u32)
    ensures
        forall|y: u32| #[trigger] sorted_insert(s, x).contains(y) <==> (y == x || s.contains(y)),
    decreases s.len(),
{
    let r = sorted_insert(s, x);
    if s.len() == 0 {
        assert forall|y: u32| r.contains(y) <==> (y == x || s.contains(y)) by {
            if y == x {
                assert(r[0] == y);
            }
            if r.contains(y) {
                let j = choose|j: int| 0 <= j < r.len() && r[j] == y;
                assert(j == 0);
            }
        }
    } else if x < s[0] {
        assert forall|y: u32| r.contains(y) <==> (y == x || s.contains(y)) by {
            lemma_cons_contains(x, s, y);
        }
    } else if x == s[0] {
        assert forall|y: u32| r.contains(y) <==> (y == x || s.contains(y)) by {
            if y == x {
                assert(s[0] == y);
                assert(s.contains(y));
            }
        }
    } else {
        lemma_insert_contains(s.drop_first(), x);
        lemma_rest_subset(s);
        assert forall|y: u32| r.contains(y) <==> (y == x || s.contains(y)) by {
            assert(sorted_insert(s.drop_first(), x).contains(y) <==> (y == x
                || s.drop_first().contains(y)));
            lemma_cons_contains(s[0], sorted_insert(s.drop_first(), x), y);
            lemma_cons_contains(s[0], s.drop_first(), y);
            assert(seq![s[0]] + s.drop_first() =~= s);
        }
    }
}

pub proof fn lemma_insert_sorted(s: Seq<u32>, x: u32)
    requires
        sorted_strict(s),
    ensures
        sorted_strict(sorted_insert(s, x)),
    decreases s.len(),
{
    if s.len() == 0 {
    } else if x < s[0] {
        let r = seq![x] + s;
        assert forall|i: int, j: int| 0 <= i < j < r.len() implies r[i] < r[j] by {
            if i == 0 {
                if j == 1 {
                    assert(r[j] == s[0]);
                } else {
                    assert(r[j] == s[j - 1]);
                    assert(s[0] < s[j - 1]);
                }
            } else {
                assert(r[i] == s[i - 1] && r[j] == s[j - 1]);
            }
        }
    } else if x == s[0] {
    } else {
        let rest = s.drop_first();
        assert(sorted_strict(rest));
        lemma_insert_sorted(rest, x);
        lemma_insert_contains(rest, x);
        lemma_rest_above_head(s);
        assert(!sorted_insert(rest, x).contains(s[0])) by {
            if sorted_insert(rest, x).contains(s[0]) {
                assert(s[0] == x || rest.contains(s[0]));
            }
        }
        assert forall|y: u32| sorted_insert(rest, x).contains(y) implies (rest.contains(y) || seq![
            x,
        ].contains(y)) by {
            if y == x {
                assert(seq![x][0] == y);
            }
        }
        assert forall|y: u32| seq![x].contains(y) implies y >= s[0] by {
            let j = choose|j: int| 0 <= j < seq![x].len() && seq![x][j] == y;
            assert(y == x);
        }
        lemma_cons_sorted(s[0], sorted_insert(rest, x), rest, seq![x]);
    }
}

/// Two ascending sequences with the same members are the same sequence.
pub proof fn lemma_sorted_unique(c1: Seq<u32>, c2: Seq<u32>)
    requires
        sorted_strict(c1),
        sorted_strict(c2),
        forall|x: u32| c1.contains(x) <==> c2.contains(x),
    ensures
        c1 == c2,
    decreases c1.len(),
{
    if c1.len() == 0 {
        if c2.len() > 0 {
            assert(c2.contains(c2[0])) by {
                assert(c2[0] == c2[0]);
            }
        }
        assert(c1 =~= c2);
    } else {
        assert(c1.contains(c1[0])) by {
            assert(c1[0] == c1[0]);
        }
        if c2.len() == 0 {
            assert(false);
        }
        assert(c2.contains(c2[0])) by {
            assert(c2[0] == c2[0]);
        }
        lemma_contains_ge_head(c1);
        lemma_contains_ge_head(c2);
        assert(c1[0] == c2[0]);
        let r1 = c1.drop_first();
        let r2 = c2.drop_first();
        assert(sorted_strict(r1));
        assert(sorted_strict(r2));
        lemma_rest_subset(c1);
        lemma_rest_subset(c2);
        lemma_rest_above_head(c1);
        lemma_rest_above_head(c2);
        assert forall|x: u32| r1.contains(x) <==> r2.contains(x) by {
            if r1.contains(x) {
                assert(c2.contains(x) && x > c1[0]);
                let j = choose|j: int| 0 <= j < c2.len() && c2[j] == x;
                assert(j > 0);
                assert(r2[j - 1] == x);
            }
            if r2.contains(x) {
                assert(c1.contains(x) && x > c2[0]);
                let j = choose|j: int| 0 <= j < c1.len() && c1[j] == x;
                assert(j > 0);
                assert(r1[j - 1] == x);
            }
        }
        lemma_sorted_unique(r1, r2);
        assert(c1 =~= seq![c1[0]] + r1);
        assert(c2 =~= seq![c2[0]] + r2);
    }
}

/// An ascending sequence of 32-bit values has at most `2^32` elements.
pub proof fn lemma_sorted_len(s: Seq<u32>)
    requires
        sorted_strict(s),
    ensures
        s.len() <= 0x1_0000_0000,
{
    lemma_cnt_lt_full(s);
    lemma_cnt_lt_partition(s, 0x1_0000_0000);
    if s.len() > 0x1_0000_0000 {
        lemma_index_at_least(s, 0x1_0000_0000);
    }
}

/// In an ascending sequence of naturals, the value at an index is at least
/// the index.
pub proof fn lemma_index_at_least(s: Seq<u32>, i: int)
    requires
        sorted_strict(s),
        0 <= i < s.len(),
    ensures
        s[i] >= i,
    decreases i,
{
    if i > 0 {
        lemma_index_at_least(s, i - 1);
    }
}

/// Any contiguous part of an ascending sequence is ascending.
pub proof fn lemma_sorted_subrange(s: Seq<u32>, a: int, b: int)
    requires
        sorted_strict(s),
        0 <= a <= b <= s.len(),
    ensures
        sorted_strict(s.subrange(a, b)),
{
}

/// A window of an ascending sequence is ascending.
pub proof fn lemma_page_sorted(c: Seq<u32>, skip: int, fetch: Option<u32>)
    requires
        sorted_strict(c),
        skip >= 0,
    ensures
        sorted_strict(page(c, skip, fetch)),
{
}

/// Every element of a window is an element of the candidate sequence.
pub proof fn lemma_page_subset(c: Seq<u32>, skip: int, fetch: Option<u32>)
    requires
        skip >= 0,
    ensures
        forall|x: u32| page(c, skip, fetch).contains(x) ==> c.contains(x),
{
    let p = page(c, skip, fetch);
    assert forall|x: u32| p.contains(x) implies c.contains(x) by {
        let j = choose|j: int| 0 <= j < p.len() && p[j] == x;
        let start = if skip <= c.len() {
            skip
        } else {
            c.len() as int
        };
        assert(c[start + j] == x);
    }
}

} // verus!

