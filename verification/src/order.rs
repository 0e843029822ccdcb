//! Lexicographic order of byte strings (how `[u8; N]` compares) and sorting.

use vstd::prelude::*;

verus! {

/// `a` sorts strictly before `b`: at the first position where they differ,
/// `a` has the smaller byte, or `a` is a proper prefix of `b`.
pub open spec fn bytes_lt(a: Seq<u8>, b: Seq<u8>) -> bool {
    exists|i: int|
        0 <= i <= a.len() && i <= b.len() && a.subrange(0, i) == b.subrange(0, i) && ((i < a.len()
            && i < b.len() && a[i] < b[i]) || (i == a.len() && i < b.len()))
}

/// `a` sorts before or equal to `b`.
pub open spec fn bytes_le(a: Seq<u8>, b: Seq<u8>) -> bool {
    a == b || bytes_lt(a, b)
}

/// Compares two byte strings lexicographically: negative, zero or positive
/// as `a` sorts before, equal to or after `b`.
pub fn compare_bytes(a: &[u8], b: &[u8]) -> (r: i8)
    ensures
        r == 0 <==> a@ == b@,
        r < 0 <==> bytes_lt(a@, b@),
        r > 0 <==> bytes_lt(b@, a@),
{
    let mut i: usize = 0;
    while i < a.len() && i < b.len()
        invariant
            i <= a@.len(),
            i <= b@.len(),
            a@.subrange(0, i as int) == b@.subrange(0, i as int),
        decreases a@.len() - i,
    {
        if a[i] != b[i] {
            proof {
                lemma_lt_exclusive(a@, b@);
                if a[i as int] < b[i as int] {
                    assert(bytes_lt(a@, b@));
                    lemma_lt_witness_unique_no_reverse(a@, b@, i as int);
                } else {
                    assert(bytes_lt(b@, a@));
                    lemma_lt_witness_unique_no_reverse(b@, a@, i as int);
                }
            }
            return if a[i] < b[i] { -1 } else { 1 };
        }
        assert(a@.subrange(0, i + 1) =~= a@.subrange(0, i as int).push(a@[i as int]));
        assert(b@.subrange(0, i + 1) =~= b@.subrange(0, i as int).push(b@[i as int]));
        i += 1;
    }
    proof {
        lemma_lt_exclusive(a@, b@);
    }
    if a.len() < b.len() {
        assert(a@ =~= b@.subrange(0, a@.len() as int)) by {
            assert(a@ == a@.subrange(0, i as int));
        }
        assert(bytes_lt(a@, b@));
        proof { lemma_prefix_not_reverse(a@, b@); }
        -1
    } else if b.len() < a.len() {
        assert(a@.subrange(0, i as int) == b@.subrange(0, i as int));
        assert(b@ =~= a@.subrange(0, b@.len() as int)) by {
            assert(b@ == b@.subrange(0, i as int));
        }
        assert(bytes_lt(b@, a@));
        proof { lemma_prefix_not_reverse(b@, a@); }
        1
    } else {
        assert(a@ =~= b@) by {
            assert(a@ == a@.subrange(0, i as int));
            assert(b@ == b@.subrange(0, i as int));
        }
        proof { lemma_lt_irreflexive(a@); }
        0
    }
}

/// No byte string sorts before itself.
pub proof fn lemma_lt_irreflexive(a: Seq<u8>)
    ensures
        !bytes_lt(a, a),
{
}

/// `a < b` excludes `a == b`.
pub proof fn lemma_lt_exclusive(a: Seq<u8>, b: Seq<u8>)
    ensures
        bytes_lt(a, b) ==> a != b,
{
}

proof fn lemma_lt_witness_unique_no_reverse(a: Seq<u8>, b: Seq<u8>, i: int)
    requires
        0 <= i < a.len(),
        i < b.len(),
        a.subrange(0, i) == b.subrange(0, i),
        a[i] < b[i],
    ensures
        !bytes_lt(b, a),
        a != b,
{
    if bytes_lt(b, a) {
        let j = choose|j: int|
            0 <= j <= b.len() && j <= a.len() && b.subrange(0, j) == a.subrange(0, j) && ((j < b.len()
                && j < a.len() && b[j] < a[j]) || (j == b.len() && j < a.len()));
        if j < i {
            assert(a.subrange(0, i)[j] == a[j]);
            assert(b.subrange(0, i)[j] == b[j]);
        } else if j > i {
            assert(b.subrange(0, j)[i] == b[i]);
            assert(a.subrange(0, j)[i] == a[i]);
        } else {
            assert(b[i] < a[i]);
        }
    }
    assert(a[i] != b[i]);
}

proof fn lemma_prefix_not_reverse(a: Seq<u8>, b: Seq<u8>)
    requires
        a.len() < b.len(),
        a == b.subrange(0, a.len() as int),
    ensures
        !bytes_lt(b, a),
{
    if bytes_lt(b, a) {
        let j = choose|j: int|
            0 <= j <= b.len() && j <= a.len() && b.subrange(0, j) == a.subrange(0, j) && ((j < b.len()
                && j < a.len() && b[j] < a[j]) || (j == b.len() && j < a.len()));
        assert(j < a.len());
        assert(a[j] == b.subrange(0, a.len() as int)[j]);
    }
}

/// The order is total.
pub proof fn lemma_lt_total(a: Seq<u8>, b: Seq<u8>)
    ensures
        a == b || bytes_lt(a, b) || bytes_lt(b, a),
    decreases a.len(),
{
    if a.len() == 0 || b.len() == 0 {
        if a.len() == 0 && b.len() > 0 {
            assert(a.subrange(0, 0) =~= b.subrange(0, 0));
        } else if b.len() == 0 && a.len() > 0 {
            assert(a.subrange(0, 0) =~= b.subrange(0, 0));
        } else {
            assert(a =~= b);
        }
    } else if a[0] != b[0] {
        assert(a.subrange(0, 0) =~= b.subrange(0, 0));
    } else {
        lemma_lt_total(a.drop_first(), b.drop_first());
        if a.drop_first() == b.drop_first() {
            assert(a =~= b) by {
                assert(a == seq![a[0]] + a.drop_first());
                assert(b == seq![b[0]] + b.drop_first());
            }
        } else if bytes_lt(a.drop_first(), b.drop_first()) {
            let j = choose|j: int|
                0 <= j <= a.drop_first().len() && j <= b.drop_first().len()
                    && a.drop_first().subrange(0, j) == b.drop_first().subrange(0, j) && ((j
                    < a.drop_first().len() && j < b.drop_first().len() && a.drop_first()[j]
                    < b.drop_first()[j]) || (j == a.drop_first().len() && j < b.drop_first().len()));
            assert(a.subrange(0, j + 1) =~= seq![a[0]] + a.drop_first().subrange(0, j));
            assert(b.subrange(0, j + 1) =~= seq![b[0]] + b.drop_first().subrange(0, j));
        } else {
            let j = choose|j: int|
                0 <= j <= b.drop_first().len() && j <= a.drop_first().len()
                    && b.drop_first().subrange(0, j) == a.drop_first().subrange(0, j) && ((j
                    < b.drop_first().len() && j < a.drop_first().len() && b.drop_first()[j]
                    < a.drop_first()[j]) || (j == b.drop_first().len() && j < a.drop_first().len()));
            assert(a.subrange(0, j + 1) =~= seq![a[0]] + a.drop_first().subrange(0, j));
            assert(b.subrange(0, j + 1) =~= seq![b[0]] + b.drop_first().subrange(0, j));
        }
    }
}

/// The order is transitive.
pub proof fn lemma_lt_transitive(a: Seq<u8>, b: Seq<u8>, c: Seq<u8>)
    requires
        bytes_lt(a, b),
        bytes_lt(b, c),
    ensures
        bytes_lt(a, c),
{
    let i = choose|i: int|
        0 <= i <= a.len() && i <= b.len() && a.subrange(0, i) == b.subrange(0, i) && ((i < a.len()
            && i < b.len() && a[i] < b[i]) || (i == a.len() && i < b.len()));
    let j = choose|j: int|
        0 <= j <= b.len() && j <= c.len() && b.subrange(0, j) == c.subrange(0, j) && ((j < b.len()
            && j < c.len() && b[j] < c[j]) || (j == b.len() && j < c.len()));
    if i < j {
        assert(a.subrange(0, i) =~= c.subrange(0, i)) by {
            assert forall|k: int| 0 <= k < i implies a.subrange(0, i)[k] == c.subrange(0, i)[k] by {
                assert(a.subrange(0, i)[k] == b.subrange(0, i)[k]);
                assert(b.subrange(0, j)[k] == c.subrange(0, j)[k]);
            }
        }
        if i < a.len() {
            assert(b.subrange(0, j)[i] == c.subrange(0, j)[i]);
        }
    } else if j < i {
        assert(a.subrange(0, j) =~= c.subrange(0, j)) by {
            assert forall|k: int| 0 <= k < j implies a.subrange(0, j)[k] == c.subrange(0, j)[k] by {
                assert(a.subrange(0, i)[k] == b.subrange(0, i)[k]);
                assert(b.subrange(0, j)[k] == c.subrange(0, j)[k]);
            }
        }
        assert(a.subrange(0, i)[j] == b.subrange(0, i)[j]);
    } else {
        assert(a.subrange(0, i) =~= c.subrange(0, i)) by {
            assert forall|k: int| 0 <= k < i implies a.subrange(0, i)[k] == c.subrange(0, i)[k] by {
                assert(a.subrange(0, i)[k] == b.subrange(0, i)[k]);
                assert(b.subrange(0, j)[k] == c.subrange(0, j)[k]);
            }
        }
    }
}

/// `a <= b < c` gives `a < c`.
pub proof fn lemma_le_lt(a: Seq<u8>, b: Seq<u8>, c: Seq<u8>)
    requires
        bytes_le(a, b),
        bytes_lt(b, c),
    ensures
        bytes_lt(a, c),
{
    if a != b {
        lemma_lt_transitive(a, b, c);
    }
}

/// `a < b <= c` gives `a < c`.
pub proof fn lemma_lt_le(a: Seq<u8>, b: Seq<u8>, c: Seq<u8>)
    requires
        bytes_lt(a, b),
        bytes_le(b, c),
    ensures
        bytes_lt(a, c),
{
    if b != c {
        lemma_lt_transitive(a, b, c);
    }
}

/// `a <= b <= c` gives `a <= c`.
pub proof fn lemma_le_transitive(a: Seq<u8>, b: Seq<u8>, c: Seq<u8>)
    requires
        bytes_le(a, b),
        bytes_le(b, c),
    ensures
        bytes_le(a, c),
{
    if a != b && b != c {
        lemma_lt_transitive(a, b, c);
    }
}

} // verus!
