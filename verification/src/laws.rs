//! Registry-wide laws, stated and proved against the public model.

use vstd::prelude::*;

use crate::model::{AccountId, MAX_NICKNAMES, list_of, registry_invariant};
use crate::registry::Registry;

verus! {

/// Uniqueness: two distinct accounts never hold the same nickname at the
/// same time, in any well-formed registry state.
pub proof fn lemma_nickname_unique(r: &Registry, a: AccountId, b: AccountId, n: Seq<u8>)
    requires
        r.wf(),
        a != b,
    ensures
        !(list_of(r@, a).contains(n) && list_of(r@, b).contains(n)),
{
    r.lemma_wf_invariant();
    if list_of(r@, a).contains(n) && list_of(r@, b).contains(n) {
        let i = choose|i: int| 0 <= i < list_of(r@, a).len() && list_of(r@, a)[i] == n;
        let j = choose|j: int| 0 <= j < list_of(r@, b).len() && list_of(r@, b)[j] == n;
        assert(r@[a][i] == r@[b][j]);
    }
}

/// Order preservation: clearing the entry at position `i` keeps every other
/// entry of the caller's list in its relative order — entries before `i`
/// stay in place, entries after `i` shift down by one — and leaves every
/// other account's list untouched.
pub proof fn lemma_clear_preserves_order(
    before: Map<AccountId, Seq<Seq<u8>>>,
    after: Map<AccountId, Seq<Seq<u8>>>,
    caller: AccountId,
    i: int,
)
    requires
        before.contains_key(caller),
        0 <= i < before[caller].len(),
        after == before.insert(caller, before[caller].remove(i)),
    ensures
        after[caller].len() == before[caller].len() - 1,
        forall|j: int| 0 <= j < i ==> #[trigger] after[caller][j] == before[caller][j],
        forall|j: int|
            i <= j < after[caller].len() ==> #[trigger] after[caller][j] == before[caller][j + 1],
        forall|b: AccountId|
            b != caller && before.contains_key(b) ==> after.contains_key(b) && after[b]
                == before[b],
{
    before[caller].remove_ensures(i);
}

/// Capacity: no account's list ever exceeds the capacity bound, in any
/// well-formed registry state.
pub proof fn lemma_capacity(r: &Registry, a: AccountId)
    requires
        r.wf(),
    ensures
        list_of(r@, a).len() <= MAX_NICKNAMES as int,
{
    r.lemma_wf_invariant();
}

} // verus!
