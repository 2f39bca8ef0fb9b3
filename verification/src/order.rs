//! The order of the output: words by their bytes, as in a dictionary.

use vstd::prelude::*;

verus! {

/// `a` comes before `b` in dictionary order: after a common start, `a` ends
/// while `b` goes on, or `a` has the smaller byte.
pub open spec fn lex_less(a: Seq<u8>, b: Seq<u8>) -> bool {
    exists|k: int| #[trigger] differ_at(a, b, k)
}

/// `a` and `b` agree on their first `k` bytes, and there `a` ends or has
/// the smaller byte.
pub open spec fn differ_at(a: Seq<u8>, b: Seq<u8>, k: int) -> bool {
    &&& 0 <= k <= a.len()
    &&& k < b.len()
    &&& a.take(k) == b.take(k)
    &&& k < a.len() ==> a[k] < b[k]
}

/// Each word of `s` comes before the words that follow it.
pub open spec fn ascending(s: Seq<Seq<u8>>) -> bool {
    forall|i: int, j: int| 0 <= i < j < s.len() ==> lex_less(#[trigger] s[i], #[trigger] s[j])
}

/// No word comes before itself, and of two words at most one comes before
/// the other.
pub proof fn lemma_lex_asymmetric(a: Seq<u8>, b: Seq<u8>)
    ensures
        !(lex_less(a, b) && lex_less(b, a)),
        !lex_less(a, a),
{
    if lex_less(a, b) && lex_less(b, a) {
        let k1 = choose|k: int| #[trigger] differ_at(a, b, k);
        let k2 = choose|k: int| #[trigger] differ_at(b, a, k);
        if k1 < k2 {
            assert(b.take(k2)[k1] == a.take(k2)[k1]);
        } else if k2 < k1 {
            assert(a.take(k1)[k2] == b.take(k1)[k2]);
        }
    }
    if lex_less(a, a) {
        let k = choose|k: int| #[trigger] differ_at(a, a, k);
    }
}

/// An ascending sequence holds no word twice.
pub proof fn lemma_ascending_no_duplicates(s: Seq<Seq<u8>>)
    requires
        ascending(s),
    ensures
        s.no_duplicates(),
{
    assert forall|i: int, j: int| 0 <= i < s.len() && 0 <= j < s.len() && i != j implies s[i]
        != s[j] by {
        lemma_lex_asymmetric(s[i], s[j]);
        if i < j {
            assert(lex_less(s[i], s[j]));
        } else {
            assert(lex_less(s[j], s[i]));
        }
    }
}

/// Two ascending sequences, each before the other's words, make one.
pub proof fn lemma_ascending_concat(a: Seq<Seq<u8>>, b: Seq<Seq<u8>>)
    requires
        ascending(a),
        ascending(b),
        forall|i: int, j: int|
            0 <= i < a.len() && 0 <= j < b.len() ==> lex_less(#[trigger] a[i], #[trigger] b[j]),
    ensures
        ascending(a + b),
{
    let s = a + b;
    assert forall|i: int, j: int| 0 <= i < j < s.len() implies lex_less(
        #[trigger] s[i],
        #[trigger] s[j],
    ) by {
        if j < a.len() {
            assert(lex_less(a[i], a[j]));
        } else if i >= a.len() {
            assert(lex_less(b[i - a.len()], b[j - a.len()]));
        } else {
            assert(lex_less(a[i], b[j - a.len()]));
        }
    }
}

/// An ascending sequence is fixed by the words it holds: two of them with
/// the same words are one sequence.
pub proof fn lemma_ascending_unique(a: Seq<Seq<u8>>, b: Seq<Seq<u8>>)
    requires
        ascending(a),
        ascending(b),
        forall|w: Seq<u8>| a.contains(w) <==> b.contains(w),
    ensures
        a == b,
    decreases a.len(),
{
    if a.len() == 0 {
        if b.len() > 0 {
            assert(b.contains(b[0]));
        }
        assert(a =~= b);
    } else {
        let top = a.last();
        assert(a.contains(top));
        let j = choose|j: int| 0 <= j < b.len() && b[j] == top;
        if j < b.len() - 1 {
            let other = b.last();
            assert(b.contains(other));
            assert(lex_less(b[j], b[b.len() - 1]));
            let i = choose|i: int| 0 <= i < a.len() && a[i] == other;
            lemma_lex_asymmetric(top, other);
            if i < a.len() - 1 {
                assert(lex_less(a[i], a[a.len() - 1]));
            }
        }
        assert(b.last() == top);
        lemma_ascending_no_duplicates(a);
        lemma_ascending_no_duplicates(b);
        let a2 = a.drop_last();
        let b2 = b.drop_last();
        assert forall|w: Seq<u8>| a2.contains(w) <==> b2.contains(w) by {
            if a2.contains(w) {
                let i = choose|i: int| 0 <= i < a2.len() && a2[i] == w;
                assert(a[i] == w);
                assert(a.contains(w));
                let k = choose|k: int| 0 <= k < b.len() && b[k] == w;
                assert(b2[k] == w);
            }
            if b2.contains(w) {
                let i = choose|i: int| 0 <= i < b2.len() && b2[i] == w;
                assert(b[i] == w);
                assert(b.contains(w));
                let k = choose|k: int| 0 <= k < a.len() && a[k] == w;
                assert(a2[k] == w);
            }
        }
        assert forall|i: int, k: int| 0 <= i < k < a2.len() implies lex_less(
            #[trigger] a2[i],
            #[trigger] a2[k],
        ) by {
            assert(lex_less(a[i], a[k]));
        }
        assert forall|i: int, k: int| 0 <= i < k < b2.len() implies lex_less(
            #[trigger] b2[i],
            #[trigger] b2[k],
        ) by {
            assert(lex_less(b[i], b[k]));
        }
        lemma_ascending_unique(a2, b2);
        assert(a =~= a2.push(top));
        assert(b =~= b2.push(top));
    }
}

} // verus!
