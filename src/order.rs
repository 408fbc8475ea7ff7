//! Lexicographic order on octet sequences, first octet most significant.
use core::cmp::Ordering;
use vstd::prelude::*;

verus! {

/// Compares `a` and `b` from position `i` on, at the first octet where they differ.
pub open spec fn cmp_from(a: Seq<u8>, b: Seq<u8>, i: int) -> Ordering
    decreases a.len() - i,
{
    if i >= a.len() || i >= b.len() || i < 0 {
        Ordering::Equal
    } else if a[i] < b[i] {
        Ordering::Less
    } else if a[i] > b[i] {
        Ordering::Greater
    } else {
        cmp_from(a, b, i + 1)
    }
}

/// `a` comes before `b`: at the first position where they differ, `a` holds the smaller octet.
pub open spec fn lex_less(a: Seq<u8>, b: Seq<u8>) -> bool {
    exists|i: int|
        0 <= i < a.len() && i < b.len() && a[i] < b[i] && (forall|j: int|
            0 <= j < i ==> #[trigger] a[j] == b[j])
}

proof fn lemma_cmp_from(a: Seq<u8>, b: Seq<u8>, i: int)
    requires
        a.len() == b.len(),
        0 <= i <= a.len(),
    ensures
        (cmp_from(a, b, i) == Ordering::Less) <==> exists|k: int|
            i <= k < a.len() && a[k] < b[k] && (forall|j: int| i <= j < k ==> #[trigger] a[j] == b[j]),
        (cmp_from(a, b, i) == Ordering::Greater) <==> exists|k: int|
            i <= k < a.len() && b[k] < a[k] && (forall|j: int| i <= j < k ==> #[trigger] a[j] == b[j]),
        (cmp_from(a, b, i) == Ordering::Equal) <==> forall|j: int|
            i <= j < a.len() ==> #[trigger] a[j] == b[j],
    decreases a.len() - i,
{
    if i < a.len() {
        lemma_cmp_from(a, b, i + 1);
        if a[i] == b[i] {
            if exists|k: int|
                i <= k < a.len() && a[k] < b[k] && (forall|j: int| i <= j < k ==> #[trigger] a[j] == b[j]) {
                let k = choose|k: int|
                    i <= k < a.len() && a[k] < b[k] && (forall|j: int| i <= j < k ==> #[trigger] a[j] == b[j]);
                assert(k != i);
                assert(forall|j: int| i + 1 <= j < k ==> #[trigger] a[j] == b[j]);
            }
            if exists|k: int|
                i <= k < a.len() && b[k] < a[k] && (forall|j: int| i <= j < k ==> #[trigger] a[j] == b[j]) {
                let k = choose|k: int|
                    i <= k < a.len() && b[k] < a[k] && (forall|j: int| i <= j < k ==> #[trigger] a[j] == b[j]);
                assert(k != i);
                assert(forall|j: int| i + 1 <= j < k ==> #[trigger] a[j] == b[j]);
            }
            if exists|k: int|
                i + 1 <= k < a.len() && a[k] < b[k] && (forall|j: int| i + 1 <= j < k ==> #[trigger] a[j] == b[j]) {
                let k = choose|k: int|
                    i + 1 <= k < a.len() && a[k] < b[k] && (forall|j: int| i + 1 <= j < k ==> #[trigger] a[j] == b[j]);
                assert(forall|j: int| i <= j < k ==> #[trigger] a[j] == b[j]);
            }
            if exists|k: int|
                i + 1 <= k < a.len() && b[k] < a[k] && (forall|j: int| i + 1 <= j < k ==> #[trigger] a[j] == b[j]) {
                let k = choose|k: int|
                    i + 1 <= k < a.len() && b[k] < a[k] && (forall|j: int| i + 1 <= j < k ==> #[trigger] a[j] == b[j]);
                assert(forall|j: int| i <= j < k ==> #[trigger] a[j] == b[j]);
            }
        } else if a[i] < b[i] {
            assert(forall|j: int| i <= j < i ==> #[trigger] a[j] == b[j]);
            assert(!(forall|j: int| i <= j < a.len() ==> #[trigger] a[j] == b[j]) ) by {
                assert(a[i] != b[i]);
            }
        } else {
            assert(forall|j: int| i <= j < i ==> #[trigger] a[j] == b[j]);
            assert(!(forall|j: int| i <= j < a.len() ==> #[trigger] a[j] == b[j]) ) by {
                assert(a[i] != b[i]);
            }
        }
    }
}

/// The octet-by-octet comparison orders equal-length sequences lexicographically.
pub proof fn lemma_cmp_lexicographic(a: Seq<u8>, b: Seq<u8>)
    requires
        a.len() == b.len(),
    ensures
        (cmp_from(a, b, 0) == Ordering::Less) <==> lex_less(a, b),
        (cmp_from(a, b, 0) == Ordering::Greater) <==> lex_less(b, a),
        (cmp_from(a, b, 0) == Ordering::Equal) <==> a == b,
{
    lemma_cmp_from(a, b, 0);
    if cmp_from(a, b, 0) == Ordering::Equal {
        assert(a =~= b);
    }
    if lex_less(b, a) {
        let k = choose|k: int|
            0 <= k < b.len() && k < a.len() && b[k] < a[k] && (forall|j: int| 0 <= j < k ==> #[trigger] b[j] == a[j]);
        assert(forall|j: int| 0 <= j < k ==> #[trigger] a[j] == b[j]);
    }
    if cmp_from(a, b, 0) == Ordering::Greater {
        let k = choose|k: int|
            0 <= k < a.len() && b[k] < a[k] && (forall|j: int| 0 <= j < k ==> #[trigger] a[j] == b[j]);
        assert(forall|j: int| 0 <= j < k ==> #[trigger] b[j] == a[j]);
    }
}

/// Compares two octet sequences of the same length lexicographically.
pub fn compare_octets(a: &[u8], b: &[u8]) -> (r: Ordering)
    requires
        a@.len() == b@.len(),
    ensures
        r == cmp_from(a@, b@, 0),
{
    let mut i: usize = 0;
    while i < a.len()
        invariant
            a@.len() == b@.len(),
            i <= a@.len(),
            cmp_from(a@, b@, 0) == cmp_from(a@, b@, i as int),
        decreases a@.len() - i,
    {
        if a[i] < b[i] {
            return Ordering::Less;
        } else if a[i] > b[i] {
            return Ordering::Greater;
        }
        i = i + 1;
    }
    Ordering::Equal
}

} // verus!
