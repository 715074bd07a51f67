//! Sorting of query results by balance, largest first.

use vstd::prelude::*;
use crate::account::{AccountKey, AccountRecord};

verus! {

broadcast use vstd::seq_lib::group_to_multiset_ensures, vstd::multiset::group_multiset_axioms;

/// Balances never increase along the sequence.
pub open spec fn sorted_desc(s: Seq<(AccountKey, AccountRecord)>) -> bool {
    forall|i: int, j: int| 0 <= i < j < s.len() ==> s[i].1@.balance >= s[j].1@.balance
}

/// Selection sort by balance, largest first. The result is a permutation of
/// the input.
pub fn sort_by_balance_desc(v: Vec<(AccountKey, AccountRecord)>) -> (r: Vec<
    (AccountKey, AccountRecord),
>)
    ensures
        sorted_desc(r@),
        r@.len() == v@.len(),
        r@.to_multiset() == v@.to_multiset(),
{
    let mut rest = v;
    let mut out: Vec<(AccountKey, AccountRecord)> = Vec::new();
    proof {
        assert(out@.to_multiset().add(rest@.to_multiset()) =~= v@.to_multiset());
    }
    while rest.len() > 0
        invariant
            out@.to_multiset().add(rest@.to_multiset()) == v@.to_multiset(),
            out@.len() + rest@.len() == v@.len(),
            sorted_desc(out@),
            forall|t: int, p: int|
                0 <= t < out@.len() && 0 <= p < rest@.len() ==> out@[t].1@.balance
                    >= rest@[p].1@.balance,
        decreases rest@.len(),
    {
        // Find the largest remaining balance.
        let mut m: usize = 0;
        let mut q: usize = 1;
        while q < rest.len()
            invariant
                rest@.len() > 0,
                m < q <= rest@.len(),
                forall|p: int| 0 <= p < q ==> rest@[m as int].1@.balance >= rest@[p].1@.balance,
            decreases rest@.len() - q,
        {
            if rest[q].1.balance > rest[m].1.balance {
                m = q;
            }
            q += 1;
        }
        let ghost old_out = out@;
        let ghost old_rest = rest@;
        let e = rest.remove(m);
        out.push(e);
        proof {
            assert(old_rest.contains(e)) by {
                assert(old_rest[m as int] == e);
            }
            assert(out@.to_multiset() =~= old_out.to_multiset().insert(e));
            assert(rest@.to_multiset() =~= old_rest.to_multiset().remove(e));
            assert(out@.to_multiset().add(rest@.to_multiset()) =~= v@.to_multiset());
            assert(sorted_desc(out@)) by {
                assert(forall|t: int| 0 <= t < old_out.len() ==> out@[t] == old_out[t]);
                assert(out@[out@.len() - 1] == e);
            }
        }
    }
    out
}

/// Every element of `a` sits somewhere in `b`.
pub open spec fn seq_members_of(
    a: Seq<(AccountKey, AccountRecord)>,
    b: Seq<(AccountKey, AccountRecord)>,
) -> bool {
    forall|t: int| 0 <= t < a.len() ==> #[trigger] b.contains(a[t])
}

/// A permutation exchanges membership: every element of one sequence sits
/// somewhere in the other.
pub proof fn lemma_perm_membership(
    a: Seq<(AccountKey, AccountRecord)>,
    b: Seq<(AccountKey, AccountRecord)>,
)
    requires
        a.to_multiset() == b.to_multiset(),
    ensures
        seq_members_of(a, b),
{
    assert forall|t: int| 0 <= t < a.len() implies #[trigger] b.contains(a[t]) by {
        assert(a.contains(a[t]));
        assert(a.to_multiset().count(a[t]) > 0);
    }
}

} // verus!
