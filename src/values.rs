use vstd::prelude::*;

use itertools::Itertools;

use crate::board::distinct_when_filled;

verus! {

/// Each value of `s` once, at the place where it first occurs.
pub open spec fn first_occurrences(s: Seq<u8>) -> Seq<u8>
    decreases s.len(),
{
    if s.len() == 0 {
        Seq::empty()
    } else {
        let earlier = first_occurrences(s.drop_last());
        if earlier.contains(s.last()) {
            earlier
        } else {
            earlier.push(s.last())
        }
    }
}

/// The non-zero values of `s`, in order.
pub open spec fn nonzero_values(s: Seq<u8>) -> Seq<u8>
    decreases s.len(),
{
    if s.len() == 0 {
        Seq::empty()
    } else {
        let earlier = nonzero_values(s.drop_last());
        if s.last() != 0 {
            earlier.push(s.last())
        } else {
            earlier
        }
    }
}

/// Relies on itertools' `Itertools::unique` (collected with `collect_vec`):
/// it yields each distinct item once, the first of its duplicates, in the
/// order of the input.
#[verifier::external_body]
pub(crate) fn unique_values(values: &Vec<u8>) -> (r: Vec<u8>)
    ensures
        r@ == first_occurrences(values@),
{
    values.iter().copied().unique().collect_vec()
}

/// Pushing `x` adds exactly `x` to the values a sequence contains.
pub proof fn lemma_push_contains(q: Seq<u8>, x: u8)
    ensures
        forall|v: u8| #[trigger] q.push(x).contains(v) <==> q.contains(v) || v == x,
{
    assert forall|v: u8| #[trigger] q.push(x).contains(v) <==> q.contains(v) || v == x by {
        if q.push(x).contains(v) {
            let i = choose|i: int| 0 <= i < q.len() + 1 && q.push(x)[i] == v;
            if i < q.len() {
                assert(q[i] == v);
            }
        }
        if q.contains(v) {
            let i = choose|i: int| 0 <= i < q.len() && q[i] == v;
            assert(q.push(x)[i] == v);
        }
        if v == x {
            assert(q.push(x)[q.len() as int] == v);
        }
    }
}

/// `first_occurrences` keeps exactly the values of `s`, and drops none of
/// them exactly when `s` has no duplicates.
pub proof fn lemma_first_occurrences(s: Seq<u8>)
    ensures
        forall|v: u8| first_occurrences(s).contains(v) <==> s.contains(v),
        first_occurrences(s).len() <= s.len(),
        first_occurrences(s).len() == s.len() <==> s.no_duplicates(),
    decreases s.len(),
{
    if s.len() > 0 {
        let p = s.drop_last();
        let x = s.last();
        lemma_first_occurrences(p);
        assert(s == p.push(x));
        lemma_push_contains(p, x);
        lemma_push_contains(first_occurrences(p), x);
        if p.contains(x) {
            let i = choose|i: int| 0 <= i < p.len() && p[i] == x;
            assert(s[i] == s[s.len() - 1]);
        } else {
            if p.no_duplicates() {
                assert forall|i: int, j: int|
                    0 <= i < s.len() && 0 <= j < s.len() && i != j implies s[i] != s[j] by {
                    if i < s.len() - 1 && j < s.len() - 1 {
                        assert(s[i] == p[i] && s[j] == p[j]);
                    } else if i < s.len() - 1 {
                        assert(s[i] == p[i]);
                    } else {
                        assert(s[j] == p[j]);
                    }
                }
            }
            if s.no_duplicates() {
                assert forall|i: int, j: int|
                    0 <= i < p.len() && 0 <= j < p.len() && i != j implies p[i] != p[j] by {
                    assert(s[i] == p[i] && s[j] == p[j]);
                }
            }
        }
    }
}

/// The non-zero values of `s` are its values other than 0, and repeat
/// none exactly when `s` repeats no non-zero value.
pub proof fn lemma_nonzero_values(s: Seq<u8>)
    ensures
        forall|v: u8| nonzero_values(s).contains(v) <==> v != 0 && s.contains(v),
        nonzero_values(s).no_duplicates() <==> distinct_when_filled(s),
    decreases s.len(),
{
    if s.len() > 0 {
        let p = s.drop_last();
        let x = s.last();
        let n = s.len() - 1;
        lemma_nonzero_values(p);
        assert(s == p.push(x));
        lemma_push_contains(p, x);
        lemma_push_contains(nonzero_values(p), x);
        assert forall|v: u8| #[trigger] nonzero_values(s).contains(v) <==> v != 0 && s.contains(v) by {
            assert(s.contains(v) <==> p.contains(v) || v == x);
            assert(nonzero_values(p).contains(v) <==> v != 0 && p.contains(v));
        }
        let q = nonzero_values(p);
        if distinct_when_filled(s) {
            assert forall|a: int, b: int|
                0 <= a < p.len() && 0 <= b < p.len() && a != b && p[a] != 0 implies p[a] != p[b] by {
                assert(s[a] == p[a] && s[b] == p[b]);
            }
        }
        if x != 0 {
            if p.contains(x) {
                let i = choose|i: int| 0 <= i < p.len() && p[i] == x;
                assert(s[i] == x && s[n] == x);
                assert(!distinct_when_filled(s));
                assert(q.contains(x));
                let k = choose|k: int| 0 <= k < q.len() && q[k] == x;
                assert(q.push(x)[k] == q.push(x)[q.len() as int]);
            } else {
                assert(!q.contains(x));
                if q.no_duplicates() {
                    assert forall|i: int, j: int|
                        0 <= i < q.push(x).len() && 0 <= j < q.push(x).len() && i != j implies
                        q.push(x)[i] != q.push(x)[j] by {
                        if i < q.len() && j < q.len() {
                        } else if i < q.len() {
                            assert(q.contains(q[i]));
                        } else {
                            assert(q.contains(q[j]));
                        }
                    }
                }
                if q.push(x).no_duplicates() {
                    assert forall|i: int, j: int|
                        0 <= i < q.len() && 0 <= j < q.len() && i != j implies q[i] != q[j] by {
                        assert(q.push(x)[i] == q[i] && q.push(x)[j] == q[j]);
                    }
                }
                if distinct_when_filled(p) {
                    assert forall|a: int, b: int|
                        0 <= a < s.len() && 0 <= b < s.len() && a != b && s[a] != 0 implies s[a]
                        != s[b] by {
                        if a < n && b < n {
                            assert(s[a] == p[a] && s[b] == p[b]);
                        } else if a < n {
                            assert(s[a] == p[a]);
                            assert(p.contains(p[a]));
                        } else {
                            assert(s[b] == p[b]);
                            assert(p.contains(p[b]));
                        }
                    }
                }
            }
        } else {
            if distinct_when_filled(p) {
                assert forall|a: int, b: int|
                    0 <= a < s.len() && 0 <= b < s.len() && a != b && s[a] != 0 implies s[a]
                    != s[b] by {
                    if a < n && b < n {
                        assert(s[a] == p[a] && s[b] == p[b]);
                    } else if a < n {
                        assert(s[a] == p[a]);
                    } else {
                        assert(s[b] == p[b]);
                    }
                }
            }
        }
    }
}

/// Whether `values` holds no non-zero value twice: the non-zero values are
/// gathered and counted against their distinct values.
pub fn values_distinct(values: &Vec<u8>) -> (r: bool)
    ensures
        r == distinct_when_filled(values@),
{
    let mut filled: Vec<u8> = Vec::new();
    let mut i: usize = 0;
    while i < values.len()
        invariant
            i <= values@.len(),
            filled@ == nonzero_values(values@.take(i as int)),
        decreases values@.len() - i,
    {
        assert(values@.take(i as int + 1).drop_last() == values@.take(i as int));
        if values[i] != 0 {
            filled.push(values[i]);
        }
        i = i + 1;
    }
    assert(values@.take(i as int) == values@);
    let distinct = unique_values(&filled);
    proof {
        lemma_first_occurrences(filled@);
        lemma_nonzero_values(values@);
    }
    distinct.len() == filled.len()
}

/// Appends the non-zero values of `src` to `dst`.
pub(crate) fn append_nonzero(dst: &mut Vec<u8>, src: &Vec<u8>)
    ensures
        forall|u: u8|
            u != 0 ==> (#[trigger] final(dst)@.contains(u) <==> old(dst)@.contains(u) || src@.contains(u)),
{
    let mut i: usize = 0;
    while i < src.len()
        invariant
            i <= src@.len(),
            forall|u: u8|
                u != 0 ==> (#[trigger] dst@.contains(u) <==> old(dst)@.contains(u) || src@.take(
                    i as int,
                ).contains(u)),
        decreases src@.len() - i,
    {
        let value = src[i];
        proof {
            assert(src@.take(i as int + 1) == src@.take(i as int).push(value));
            lemma_push_contains(src@.take(i as int), value);
            lemma_push_contains(dst@, value);
        }
        if value != 0 {
            dst.push(value);
        }
        i = i + 1;
    }
    assert(src@.take(i as int) == src@);
}

/// Whether `values` holds `v`.
pub(crate) fn contains_value(values: &Vec<u8>, v: u8) -> (r: bool)
    ensures
        r == values@.contains(v),
{
    let mut i: usize = 0;
    while i < values.len()
        invariant
            i <= values@.len(),
            forall|k: int| 0 <= k < i ==> values@[k] != v,
        decreases values@.len() - i,
    {
        if values[i] == v {
            return true;
        }
        i = i + 1;
    }
    false
}

/// The least value of `1..=9` that `forbidden` lacks, if there is one.
pub(crate) fn first_allowed_value(forbidden: &Vec<u8>) -> (r: Option<u8>)
    ensures
        match r {
            Some(v) => 1 <= v <= 9 && !forbidden@.contains(v) && forall|u: u8|
                1 <= u < v ==> #[trigger] forbidden@.contains(u),
            None => forall|u: u8| 1 <= u <= 9 ==> #[trigger] forbidden@.contains(u),
        },
{
    let mut candidate: u8 = 1;
    while candidate <= 9
        invariant
            1 <= candidate <= 10,
            forall|u: u8| 1 <= u < candidate ==> #[trigger] forbidden@.contains(u),
        decreases 10 - candidate,
    {
        if !contains_value(forbidden, candidate) {
            return Some(candidate);
        }
        candidate = candidate + 1;
    }
    None
}

} // verus!
