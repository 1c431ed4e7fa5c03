//! The order in which texts are written out: by code point, shorter first.
//!
//! Query text is also a cache key, so whatever is written into it comes in
//! one fixed order. This module defines that order and proves that it is a
//! strict total order.

use vstd::prelude::*;

verus! {

/// Whether `a` comes before `b`, given that they agree before position `i`:
/// at the first position where they differ the smaller code point decides,
/// and a text comes before each of its proper extensions.
pub open spec fn text_lt_from(a: Seq<char>, b: Seq<char>, i: int) -> bool
    decreases a.len() - i,
{
    if i < 0 || i >= b.len() {
        false
    } else if i >= a.len() {
        true
    } else if a[i] != b[i] {
        a[i] < b[i]
    } else {
        text_lt_from(a, b, i + 1)
    }
}

/// Whether `a` comes before `b`.
pub open spec fn text_lt(a: Seq<char>, b: Seq<char>) -> bool {
    text_lt_from(a, b, 0)
}

/// Tests whether `a` comes before `b`.
pub fn text_less(a: &Vec<char>, b: &Vec<char>) -> (less: bool)
    ensures
        less == text_lt(a@, b@),
{
    let mut i: usize = 0;
    while i < a.len() && i < b.len()
        invariant
            i <= a.len(),
            i <= b.len(),
            text_lt(a@, b@) == text_lt_from(a@, b@, i as int),
        decreases a.len() - i,
    {
        if a[i] != b[i] {
            return a[i] < b[i];
        }
        i += 1;
    }
    i < b.len()
}

/// No text comes before itself.
pub proof fn lemma_text_lt_irreflexive(a: Seq<char>, i: int)
    ensures
        !text_lt_from(a, a, i),
    decreases a.len() - i,
{
    if 0 <= i < a.len() {
        lemma_text_lt_irreflexive(a, i + 1);
    }
}

/// The order of texts is transitive.
pub proof fn lemma_text_lt_transitive(a: Seq<char>, b: Seq<char>, c: Seq<char>, i: int)
    requires
        text_lt_from(a, b, i),
        text_lt_from(b, c, i),
    ensures
        text_lt_from(a, c, i),
    decreases a.len() - i,
{
    if i < a.len() && a[i] == b[i] && b[i] == c[i] {
        lemma_text_lt_transitive(a, b, c, i + 1);
    }
}

/// Texts that agree before `i` and of which neither comes before the other
/// are equal.
pub proof fn lemma_text_lt_total(a: Seq<char>, b: Seq<char>, i: int)
    requires
        0 <= i <= a.len(),
        i <= b.len(),
        a.take(i) == b.take(i),
        !text_lt_from(a, b, i),
        !text_lt_from(b, a, i),
    ensures
        a == b,
    decreases a.len() - i,
{
    if i < a.len() && i < b.len() {
        assert(a[i] == b[i]);
        assert(a.take(i + 1) =~= a.take(i).push(a[i]));
        assert(b.take(i + 1) =~= b.take(i).push(b[i]));
        lemma_text_lt_total(a, b, i + 1);
    } else {
        assert(a.take(i) =~= a);
        assert(b.take(i) =~= b);
    }
}

/// Whether `x` comes before `y` under the order `lt`.
pub open spec fn precedes<T>(lt: spec_fn(T, T) -> bool, x: T, y: T) -> bool {
    lt(x, y)
}

/// Whether `items` stand in strictly rising order under `lt`.
pub open spec fn strictly_sorted<T>(items: Seq<T>, lt: spec_fn(T, T) -> bool) -> bool {
    forall|i: int, j: int| 0 <= i < j < items.len() ==> precedes(lt, items[i], items[j])
}

/// Two strictly rising sequences with the same members are the same
/// sequence: under a strict order a set has one rising arrangement only.
pub proof fn lemma_sorted_unique<T>(a: Seq<T>, b: Seq<T>, lt: spec_fn(T, T) -> bool)
    requires
        forall|x: T| !#[trigger] precedes(lt, x, x),
        forall|x: T, y: T, z: T|
            #[trigger] precedes(lt, x, y) && #[trigger] precedes(lt, y, z) ==> precedes(lt, x, z),
        strictly_sorted(a, lt),
        strictly_sorted(b, lt),
        forall|x: T| a.contains(x) <==> b.contains(x),
    ensures
        a == b,
    decreases a.len(),
{
    if a.len() == 0 {
        if b.len() > 0 {
            assert(b.contains(b[0]));
        }
        assert(a =~= b);
    } else {
        let x = a.last();
        assert(a.contains(x));
        assert(b.contains(x));
        let y = b.last();
        assert(b.contains(y));
        assert(a.contains(y));
        let kx = choose|k: int| 0 <= k < b.len() && b[k] == x;
        let ky = choose|k: int| 0 <= k < a.len() && a[k] == y;
        if x != y {
            assert(precedes(lt, b[kx], b[b.len() - 1]));
            assert(precedes(lt, a[ky], a[a.len() - 1]));
        }
        let a0 = a.drop_last();
        let b0 = b.drop_last();
        assert forall|z: T| a0.contains(z) <==> b0.contains(z) by {
            if a0.contains(z) {
                let i = choose|i: int| 0 <= i < a0.len() && a0[i] == z;
                assert(precedes(lt, a[i], a[a.len() - 1]));
                assert(a.contains(z));
                let k = choose|k: int| 0 <= k < b.len() && b[k] == z;
                assert(k < b.len() - 1);
                assert(b0[k] == z);
            }
            if b0.contains(z) {
                let i = choose|i: int| 0 <= i < b0.len() && b0[i] == z;
                assert(precedes(lt, b[i], b[b.len() - 1]));
                assert(b.contains(z));
                let k = choose|k: int| 0 <= k < a.len() && a[k] == z;
                assert(k < a.len() - 1);
                assert(a0[k] == z);
            }
        }
        assert(strictly_sorted(a0, lt)) by {
            assert forall|i: int, j: int| 0 <= i < j < a0.len() implies precedes(lt, a0[i], a0[j]) by {
                assert(precedes(lt, a[i], a[j]));
            }
        }
        assert(strictly_sorted(b0, lt)) by {
            assert forall|i: int, j: int| 0 <= i < j < b0.len() implies precedes(lt, b0[i], b0[j]) by {
                assert(precedes(lt, b[i], b[j]));
            }
        }
        lemma_sorted_unique(a0, b0, lt);
        assert(a =~= a0.push(x));
        assert(b =~= b0.push(y));
    }
}

} // verus!
