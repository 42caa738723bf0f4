//! A verified selection sort for sequences of distinct page numbers.
use vstd::multiset::Multiset;
use vstd::prelude::*;

verus! {

/// No value occurs twice.
pub open spec fn distinct_u32(s: Seq<u32>) -> bool {
    forall|i: int, j: int| 0 <= i < j < s.len() ==> s[i] != s[j]
}

/// Each value is strictly below the next.
pub open spec fn strictly_sorted_u32(s: Seq<u32>) -> bool {
    forall|i: int, j: int| 0 <= i < j < s.len() ==> s[i] < s[j]
}

/// Sorts a sequence of distinct values strictly ascending. The result holds
/// exactly the values of the input, each exactly once.
pub fn sort_distinct_u32(v: Vec<u32>) -> (r: Vec<u32>)
    requires
        distinct_u32(v@),
    ensures
        r@.to_multiset() == v@.to_multiset(),
        r@.len() == v@.len(),
        r@.to_set() == v@.to_set(),
        strictly_sorted_u32(r@),
{
    let mut rem = v;
    let mut out: Vec<u32> = Vec::new();
    let ghost orig: Seq<u32> = rem@;
    proof {
        broadcast use vstd::seq_lib::group_to_multiset_ensures;
        broadcast use vstd::multiset::group_multiset_axioms;

        assert(out@.to_multiset().add(rem@.to_multiset()) =~= orig.to_multiset()) by {
            assert(out@.to_multiset().len() == 0);
        }
    }
    while rem.len() > 0
        invariant
            out@.to_multiset().add(rem@.to_multiset()) =~= orig.to_multiset(),
            out@.len() + rem@.len() == orig.len(),
            distinct_u32(rem@),
            strictly_sorted_u32(out@),
            forall|i: int, j: int|
                0 <= i < out@.len() && 0 <= j < rem@.len() ==> out@[i] < rem@[j],
        decreases rem@.len(),
    {
        let mut mi: usize = 0;
        let mut k: usize = 1;
        while k < rem.len()
            invariant
                0 < rem@.len(),
                mi < k <= rem@.len(),
                forall|t: int| 0 <= t < k ==> rem@[mi as int] <= rem@[t],
            decreases rem@.len() - k,
        {
            if rem[k] < rem[mi] {
                mi = k;
            }
            k = k + 1;
        }
        let ghost rem_before: Seq<u32> = rem@;
        let m = rem.remove(mi);
        out.push(m);
        proof {
            broadcast use vstd::seq_lib::group_to_multiset_ensures;
            broadcast use vstd::multiset::group_multiset_axioms;

            let ghost out_before: Seq<u32> = out@.drop_last();
            assert(rem@ == rem_before.remove(mi as int));
            assert(out@ == out_before.push(m));
            assert(rem_before.to_multiset().count(m) > 0) by {
                assert(rem_before[mi as int] == m);
                assert(rem_before.contains(m));
            }
            assert(out@.to_multiset().add(rem@.to_multiset()) =~= orig.to_multiset()) by {
                assert forall|x: u32|
                    out@.to_multiset().add(rem@.to_multiset()).count(x) == orig.to_multiset().count(
                        x,
                    ) by {
                    assert(out@.to_multiset() == out_before.to_multiset().insert(m));
                    assert(rem@.to_multiset() == rem_before.to_multiset().remove(m));
                }
            }
            assert forall|i: int, j: int|
                0 <= i < out@.len() && 0 <= j < rem@.len() implies out@[i] < rem@[j] by {
                let jj: int = if j < mi as int {
                    j
                } else {
                    j + 1
                };
                assert(rem@[j] == rem_before[jj]);
                assert(m <= rem_before[jj]);
                assert(m != rem_before[jj]);
            }
        }
    }
    proof {
        broadcast use vstd::seq_lib::group_to_multiset_ensures;
        broadcast use vstd::multiset::group_multiset_axioms;

        assert(rem@.to_multiset() =~= Multiset::<u32>::empty()) by {
            assert(rem@.to_multiset().len() == 0);
        }
        assert(out@.to_multiset() =~= orig.to_multiset());
        assert(out@.to_set() =~= orig.to_set()) by {
            assert forall|x: u32| out@.contains(x) <==> orig.contains(x) by {
                assert(out@.contains(x) <==> out@.to_multiset().count(x) > 0);
                assert(orig.contains(x) <==> orig.to_multiset().count(x) > 0);
                assert(out@.to_multiset().count(x) == orig.to_multiset().count(x));
            }
        }
    }
    out
}

} // verus!
