//! Insertion sorts over plain integer vectors, with permutation proofs.

use vstd::prelude::*;

verus! {

/// Inserting into the middle of a sequence adds exactly one element to
/// its multiset of entries.
pub proof fn lemma_seq_insert_multiset<A>(s: Seq<A>, x: A, i: int)
    requires
        0 <= i <= s.len(),
    ensures
        s.insert(i, x).to_multiset() == s.to_multiset().insert(x),
{
    let a = s.take(i);
    let b = s.skip(i);
    assert(s.insert(i, x) =~= a + seq![x] + b);
    vstd::seq_lib::lemma_multiset_commutative(a + seq![x], b);
    vstd::seq_lib::lemma_multiset_commutative(a, b);
    assert(a + b =~= s);
    assert(a + seq![x] =~= a.push(x));
    a.to_multiset_ensures();
    assert((a + seq![x] + b).to_multiset() =~= s.to_multiset().insert(x));
}

/// Non-decreasing order.
pub open spec fn sorted_u64(s: Seq<u64>) -> bool {
    forall|i: int, j: int| 0 <= i < j < s.len() ==> s[i] <= s[j]
}

/// Non-decreasing order.
pub open spec fn sorted_i64(s: Seq<i64>) -> bool {
    forall|i: int, j: int| 0 <= i < j < s.len() ==> s[i] <= s[j]
}

/// Sorts the vector in non-decreasing order; the entries are a
/// permutation of the input's.
pub fn sort_u64(v: &mut Vec<u64>)
    ensures
        sorted_u64(final(v)@),
        final(v)@.to_multiset() == old(v)@.to_multiset(),
        final(v)@.len() == old(v)@.len(),
{
    let n = v.len();
    proof {
        old(v)@.to_multiset_ensures();
    }
    if n <= 1 {
        return ;
    }
    let mut i: usize = 1;
    while i < n
        invariant
            n == v@.len(),
            1 <= i || n == 0,
            i <= n,
            sorted_u64(v@.take(i as int)),
            v@.to_multiset() == old(v)@.to_multiset(),
        decreases n - i,
    {
        let x = v[i];
        let ghost before = v@;
        // Find where `x` belongs in the sorted prefix.
        let mut j: usize = 0;
        while j < i && v[j] <= x
            invariant
                j <= i < n,
                n == v@.len(),
                v@ == before,
                forall|k: int| 0 <= k < j ==> v@[k] <= x,
            decreases i - j,
        {
            j += 1;
        }
        assert(j < i ==> v@[j as int] > x);
        let removed = v.remove(i);
        proof {
            before.to_multiset_ensures();
        }
        v.insert(j, removed);
        proof {
            let rem = before.remove(i as int);
            lemma_seq_insert_multiset(rem, x, j as int);
            assert(v@.to_multiset() == before.to_multiset());
            // The new prefix is sorted: entries below `j` are unchanged and
            // at most `x`, entries above are shifted up by one and exceed `x`.
            assert(forall|k: int| 0 <= k < i ==> #[trigger] rem[k] == before[k]);
            assert(v@ =~= rem.insert(j as int, x));
            assert(forall|k: int| 0 <= k < j ==> #[trigger] v@[k] == before[k]);
            assert(v@[j as int] == x);
            assert(forall|k: int| j < k <= i ==> #[trigger] v@[k] == before[k - 1]);
            assert forall|k1: int, k2: int| 0 <= k1 < k2 < i implies before[k1] <= before[k2] by {
                assert(before.take(i as int)[k1] == before[k1]);
                assert(before.take(i as int)[k2] == before[k2]);
            }
            assert forall|a: int, b: int| 0 <= a < b < i + 1 implies v@[a] <= v@[b] by {
                if a < j {
                    assert(v@[a] == before[a] && before[a] <= x);
                }
                if a == j {
                    assert(v@[a] == x);
                }
                if a > j {
                    assert(v@[a] == before[a - 1]);
                }
                if b > j {
                    assert(v@[b] == before[b - 1]);
                    assert(j <= b - 1 < i);
                    assert(before[j as int] > x);
                    if j < b - 1 {
                        assert(before[j as int] <= before[b - 1]);
                    }
                }
            }
        }
        i += 1;
    }
    proof {
        assert(v@.take(n as int) =~= v@);
    }
}

/// Sorts the vector in non-decreasing order; the entries are a
/// permutation of the input's.
pub fn sort_i64(v: &mut Vec<i64>)
    ensures
        sorted_i64(final(v)@),
        final(v)@.to_multiset() == old(v)@.to_multiset(),
        final(v)@.len() == old(v)@.len(),
{
    let n = v.len();
    proof {
        old(v)@.to_multiset_ensures();
    }
    if n <= 1 {
        return ;
    }
    let mut i: usize = 1;
    while i < n
        invariant
            n == v@.len(),
            1 <= i || n == 0,
            i <= n,
            sorted_i64(v@.take(i as int)),
            v@.to_multiset() == old(v)@.to_multiset(),
        decreases n - i,
    {
        let x = v[i];
        let ghost before = v@;
        let mut j: usize = 0;
        while j < i && v[j] <= x
            invariant
                j <= i < n,
                n == v@.len(),
                v@ == before,
                forall|k: int| 0 <= k < j ==> v@[k] <= x,
            decreases i - j,
        {
            j += 1;
        }
        assert(j < i ==> v@[j as int] > x);
        let removed = v.remove(i);
        proof {
            before.to_multiset_ensures();
        }
        v.insert(j, removed);
        proof {
            let rem = before.remove(i as int);
            lemma_seq_insert_multiset(rem, x, j as int);
            assert(v@.to_multiset() == before.to_multiset());
            // The new prefix is sorted: entries below `j` are unchanged and
            // at most `x`, entries above are shifted up by one and exceed `x`.
            assert(forall|k: int| 0 <= k < i ==> #[trigger] rem[k] == before[k]);
            assert(v@ =~= rem.insert(j as int, x));
            assert(forall|k: int| 0 <= k < j ==> #[trigger] v@[k] == before[k]);
            assert(v@[j as int] == x);
            assert(forall|k: int| j < k <= i ==> #[trigger] v@[k] == before[k - 1]);
            assert forall|k1: int, k2: int| 0 <= k1 < k2 < i implies before[k1] <= before[k2] by {
                assert(before.take(i as int)[k1] == before[k1]);
                assert(before.take(i as int)[k2] == before[k2]);
            }
            assert forall|a: int, b: int| 0 <= a < b < i + 1 implies v@[a] <= v@[b] by {
                if a < j {
                    assert(v@[a] == before[a] && before[a] <= x);
                }
                if a == j {
                    assert(v@[a] == x);
                }
                if a > j {
                    assert(v@[a] == before[a - 1]);
                }
                if b > j {
                    assert(v@[b] == before[b - 1]);
                    assert(j <= b - 1 < i);
                    assert(before[j as int] > x);
                    if j < b - 1 {
                        assert(before[j as int] <= before[b - 1]);
                    }
                }
            }
        }
        i += 1;
    }
    proof {
        assert(v@.take(n as int) =~= v@);
    }
}

} // verus!
