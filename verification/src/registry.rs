//! The registry itself: the executable state, its view onto the model map,
//! and the three state-transition operations.

use vstd::prelude::*;
use vstd::map::*;
use vstd::pervasive::VecAdditionalExecFns;

use crate::model::{
    AccountId, Error, Event, MAX_NICKNAMES, MAX_NICKNAME_LEN, capacity_ok, clear_result,
    globally_unique, lengths_ok, list_of, nickname_taken, registry_invariant, set_result,
    update_result,
};

verus! {

/// One account's slot: the account identifier and its nickname list.
struct AccountEntry {
    account: AccountId,
    nicks: Vec<Vec<u8>>,
}

/// The nickname registry. Its abstract value (`self@`) is a map from
/// account to that account's ordered list of nicknames; an account appears
/// in the map once it has been touched, even if its list is empty again.
pub struct Registry {
    entries: Vec<AccountEntry>,
}

/// The nickname list of one slot, as a sequence of byte sequences.
spec fn nicks_view(v: Vec<Vec<u8>>) -> Seq<Seq<u8>> {
    v@.map_values(|n: Vec<u8>| n@)
}

/// Whether some slot belongs to account `a`.
spec fn has_account(s: Seq<AccountEntry>, a: AccountId) -> bool {
    exists|i: int| 0 <= i < s.len() && s[i].account == a
}

/// The index of account `a`'s slot; meaningful only under `has_account`.
spec fn account_index(s: Seq<AccountEntry>, a: AccountId) -> int {
    choose|i: int| 0 <= i < s.len() && s[i].account == a
}

/// No two slots belong to the same account.
spec fn accounts_distinct(s: Seq<AccountEntry>) -> bool {
    forall|i: int, j: int|
        #![trigger s[i].account, s[j].account]
        0 <= i < j < s.len() ==> s[i].account != s[j].account
}

/// The abstract map the slots represent.
spec fn entries_view(s: Seq<AccountEntry>) -> Map<AccountId, Seq<Seq<u8>>> {
    Map::new(
        |a: AccountId| has_account(s, a),
        |a: AccountId| nicks_view(s[account_index(s, a)].nicks),
    )
}

impl View for Registry {
    type V = Map<AccountId, Seq<Seq<u8>>>;

    closed spec fn view(&self) -> Map<AccountId, Seq<Seq<u8>>> {
        entries_view(self.entries@)
    }
}

/// Under distinctness, the slot of account `a` is the unique one that
/// carries it, so `account_index` names exactly the slot one points at.
proof fn lemma_account_index(s: Seq<AccountEntry>, a: AccountId, i: int)
    requires
        accounts_distinct(s),
        0 <= i < s.len(),
        s[i].account == a,
    ensures
        has_account(s, a),
        account_index(s, a) == i,
{
    assert(has_account(s, a));
    let j = account_index(s, a);
    assert(0 <= j < s.len() && s[j].account == a);
}

/// Each slot is visible in the view under its own account.
proof fn lemma_view_at(s: Seq<AccountEntry>, i: int)
    requires
        accounts_distinct(s),
        0 <= i < s.len(),
    ensures
        entries_view(s).contains_key(s[i].account),
        entries_view(s)[s[i].account] == nicks_view(s[i].nicks),
{
    lemma_account_index(s, s[i].account, i);
}

/// Each key of the view comes from exactly one slot.
proof fn lemma_view_key(s: Seq<AccountEntry>, a: AccountId)
    requires
        accounts_distinct(s),
        entries_view(s).contains_key(a),
    ensures
        0 <= account_index(s, a) < s.len(),
        s[account_index(s, a)].account == a,
        entries_view(s)[a] == nicks_view(s[account_index(s, a)].nicks),
{
    assert(has_account(s, a));
}

/// Byte-for-byte equality of two nicknames.
fn bytes_eq(a: &Vec<u8>, b: &Vec<u8>) -> (r: bool)
    ensures
        r == (a@ == b@),
{
    if a.len() != b.len() {
        return false;
    }
    let mut k: usize = 0;
    while k < a.len()
        invariant
            k <= a.len(),
            a@.len() == b@.len(),
            forall|j: int| 0 <= j < k ==> a@[j] == b@[j],
        decreases a.len() - k,
    {
        if a[k] != b[k] {
            return false;
        }
        k += 1;
    }
    proof {
        assert(a@ =~= b@);
    }
    true
}

/// An owned copy of a nickname's bytes.
fn clone_bytes(v: &Vec<u8>) -> (r: Vec<u8>)
    ensures
        r@ == v@,
{
    let mut r: Vec<u8> = Vec::new();
    let mut k: usize = 0;
    while k < v.len()
        invariant
            k <= v.len(),
            r@ == v@.subrange(0, k as int),
        decreases v.len() - k,
    {
        r.push(v[k]);
        k += 1;
    }
    proof {
        assert(v@.subrange(0, v@.len() as int) =~= v@);
    }
    r
}

/// Replacing the list of the slot at `i` with an equally-owned one updates
/// the view at that one account and nothing else.
proof fn lemma_view_update(s: Seq<AccountEntry>, i: int, e: AccountEntry)
    requires
        accounts_distinct(s),
        0 <= i < s.len(),
        e.account == s[i].account,
    ensures
        accounts_distinct(s.update(i, e)),
        entries_view(s.update(i, e)) == entries_view(s).insert(e.account, nicks_view(e.nicks)),
{
    let s2 = s.update(i, e);
    assert forall|k: int| 0 <= k < s2.len() implies s2[k].account == s[k].account by {}
    assert(accounts_distinct(s2));
    let m2 = entries_view(s2);
    let target = entries_view(s).insert(e.account, nicks_view(e.nicks));
    assert forall|a: AccountId| m2.contains_key(a) == target.contains_key(a) by {
        assert(has_account(s2, a) == has_account(s, a)) by {
            if has_account(s2, a) {
                let k = choose|k: int| 0 <= k < s2.len() && s2[k].account == a;
                assert(s[k].account == a);
            }
            if has_account(s, a) {
                let k = choose|k: int| 0 <= k < s.len() && s[k].account == a;
                assert(s2[k].account == a);
            }
        }
    }
    assert forall|a: AccountId| m2.contains_key(a) implies m2[a] == target[a] by {
        if a == e.account {
            lemma_account_index(s2, a, i);
            assert(m2[a] == nicks_view(e.nicks));
        } else {
            let k = choose|k: int| 0 <= k < s2.len() && s2[k].account == a;
            assert(k != i);
            lemma_account_index(s2, a, k);
            lemma_account_index(s, a, k);
            assert(s2[k] == s[k]);
        }
    }
    assert(m2 =~= target);
}

/// Adding a slot for a fresh account inserts exactly that account's list
/// into the view.
proof fn lemma_view_push(s: Seq<AccountEntry>, e: AccountEntry)
    requires
        accounts_distinct(s),
        !has_account(s, e.account),
    ensures
        accounts_distinct(s.push(e)),
        entries_view(s.push(e)) == entries_view(s).insert(e.account, nicks_view(e.nicks)),
{
    let s2 = s.push(e);
    assert(s2.len() == s.len() + 1);
    assert forall|k: int| 0 <= k < s.len() implies s2[k] == s[k] by {}
    assert(s2[s.len() as int] == e);
    assert(accounts_distinct(s2)) by {
        assert forall|i: int, j: int|
            0 <= i < j < s2.len() implies #[trigger] s2[i].account != #[trigger] s2[j].account by {
            if j == s.len() as int {
                assert(s2[i].account == s[i].account);
                if s2[i].account == e.account {
                    assert(has_account(s, e.account));
                }
            }
        }
    }
    let m2 = entries_view(s2);
    let target = entries_view(s).insert(e.account, nicks_view(e.nicks));
    assert forall|a: AccountId| m2.contains_key(a) == target.contains_key(a) by {
        if has_account(s2, a) && a != e.account {
            let k = choose|k: int| 0 <= k < s2.len() && s2[k].account == a;
            assert(k < s.len());
            assert(s[k].account == a);
        }
        if has_account(s, a) {
            let k = choose|k: int| 0 <= k < s.len() && s[k].account == a;
            assert(s2[k].account == a);
        }
        assert(s2[s.len() as int].account == e.account);
    }
    assert forall|a: AccountId| m2.contains_key(a) implies m2[a] == target[a] by {
        if a == e.account {
            lemma_account_index(s2, a, s.len() as int);
        } else {
            let k = choose|k: int| 0 <= k < s2.len() && s2[k].account == a;
            assert(k < s.len());
            lemma_account_index(s2, a, k);
            lemma_account_index(s, a, k);
        }
    }
    assert(m2 =~= target);
}

/// Replacing one account's list preserves the model invariant, provided the
/// new list is within bounds, duplicate-free, and shares no nickname with
/// any other account.
proof fn lemma_invariant_insert(
    m: Map<AccountId, Seq<Seq<u8>>>,
    a: AccountId,
    l: Seq<Seq<u8>>,
)
    requires
        registry_invariant(m),
        l.len() <= MAX_NICKNAMES as int,
        forall|i: int| 0 <= i < l.len() ==> #[trigger] l[i].len() <= MAX_NICKNAME_LEN as int,
        forall|i: int, j: int| #![trigger l[i], l[j]] 0 <= i < j < l.len() ==> l[i] != l[j],
        forall|b: AccountId, j: int, i: int|
            #![trigger m[b][j], l[i]]
            b != a && m.contains_key(b) && 0 <= j < m[b].len() && 0 <= i < l.len() ==> m[b][j]
                != l[i],
    ensures
        registry_invariant(m.insert(a, l)),
{
    let m2 = m.insert(a, l);
    assert(capacity_ok(m2));
    assert(lengths_ok(m2)) by {
        assert forall|b: AccountId, i: int|
            m2.contains_key(b) && 0 <= i < m2[b].len() implies #[trigger] m2[b][i].len()
            <= MAX_NICKNAME_LEN as int by {
            if b == a {
                assert(l[i].len() <= MAX_NICKNAME_LEN as int);
            } else {
                assert(m[b][i].len() <= MAX_NICKNAME_LEN as int);
            }
        }
    }
    assert(globally_unique(m2)) by {
        assert forall|b: AccountId, c: AccountId, i: int, j: int|
            m2.contains_key(b) && m2.contains_key(c) && 0 <= i < m2[b].len() && 0 <= j
                < m2[c].len() && #[trigger] m2[b][i] == #[trigger] m2[c][j] implies b == c && i
            == j by {
            if b == a && c == a {
                assert(l[i] == l[j]);
                if i < j {
                    assert(l[i] != l[j]);
                } else if j < i {
                    assert(l[j] != l[i]);
                }
            } else if b == a {
                assert(m[c][j] != l[i]);
            } else if c == a {
                assert(m[b][i] != l[j]);
            } else {
                assert(m[b][i] == m[c][j]);
            }
        }
    }
}

/// A list that is one account's list in a well-formed state is itself
/// duplicate-free, and shares no element with any other account's list.
proof fn lemma_own_list_facts(m: Map<AccountId, Seq<Seq<u8>>>, a: AccountId)
    requires
        registry_invariant(m),
    ensures
        forall|i: int, j: int|
            #![trigger list_of(m, a)[i], list_of(m, a)[j]]
            0 <= i < j < list_of(m, a).len() ==> list_of(m, a)[i] != list_of(m, a)[j],
        forall|b: AccountId, j: int, i: int|
            #![trigger m[b][j], list_of(m, a)[i]]
            b != a && m.contains_key(b) && 0 <= j < m[b].len() && 0 <= i < list_of(m, a).len()
                ==> m[b][j] != list_of(m, a)[i],
{
    let l = list_of(m, a);
    if m.contains_key(a) {
        assert forall|i: int, j: int| #![trigger l[i], l[j]] 0 <= i < j < l.len() implies l[i]
            != l[j] by {
            if m[a][i] == m[a][j] {
                assert(i == j);
            }
        }
        assert forall|b: AccountId, j: int, i: int|
            #![trigger m[b][j], l[i]]
            b != a && m.contains_key(b) && 0 <= j < m[b].len() && 0 <= i < l.len() implies m[b][j]
            != l[i] by {
            if m[b][j] == m[a][i] {
                assert(b == a);
            }
        }
    }
}

/// Appending a fresh, short-enough nickname to a list that is below
/// capacity keeps the model invariant.
proof fn lemma_set_ok(m: Map<AccountId, Seq<Seq<u8>>>, caller: AccountId, n: Seq<u8>)
    requires
        registry_invariant(m),
        n.len() <= MAX_NICKNAME_LEN as int,
        !nickname_taken(m, n),
        list_of(m, caller).len() < MAX_NICKNAMES as int,
    ensures
        registry_invariant(m.insert(caller, list_of(m, caller).push(n))),
{
    let l0 = list_of(m, caller);
    let l = l0.push(n);
    lemma_own_list_facts(m, caller);
    assert forall|b: AccountId, j: int|
        m.contains_key(b) && 0 <= j < m[b].len() implies #[trigger] m[b][j] != n by {
        if m[b][j] == n {
            assert(m[b].contains(n));
            assert(nickname_taken(m, n));
        }
    }
    assert forall|i: int| 0 <= i < l.len() implies #[trigger] l[i].len()
        <= MAX_NICKNAME_LEN as int by {
        if i < l0.len() && m.contains_key(caller) {
            assert(m[caller][i].len() <= MAX_NICKNAME_LEN as int);
        }
    }
    assert forall|i: int, j: int| #![trigger l[i], l[j]] 0 <= i < j < l.len() implies l[i]
        != l[j] by {
        if j == l0.len() {
            if l[i] == n && m.contains_key(caller) {
                assert(m[caller][i] == n);
                assert(m[caller].contains(n));
                assert(nickname_taken(m, n));
            }
        } else {
            assert(list_of(m, caller)[i] != list_of(m, caller)[j]);
        }
    }
    assert forall|b: AccountId, j: int, i: int|
        #![trigger m[b][j], l[i]]
        b != caller && m.contains_key(b) && 0 <= j < m[b].len() && 0 <= i
            < l.len() implies m[b][j] != l[i] by {
        if i < l0.len() {
            assert(m[b][j] != list_of(m, caller)[i]);
        } else {
            assert(m[b][j] != n);
        }
    }
    lemma_invariant_insert(m, caller, l);
}

/// The position of the first entry of `nicks` that equals `n`, if any.
fn find_nick(nicks: &Vec<Vec<u8>>, n: &Vec<u8>) -> (r: Option<usize>)
    ensures
        match r {
            Some(j) => j < nicks@.len() && nicks@[j as int]@ == n@ && (forall|k: int|
                0 <= k < j ==> nicks@[k]@ != n@),
            None => forall|k: int| 0 <= k < nicks@.len() ==> nicks@[k]@ != n@,
        },
{
    let mut j: usize = 0;
    while j < nicks.len()
        invariant
            j <= nicks@.len(),
            forall|k: int| 0 <= k < j ==> nicks@[k]@ != n@,
        decreases nicks@.len() - j,
    {
        if bytes_eq(&nicks[j], n) {
            return Some(j);
        }
        j += 1;
    }
    None
}

/// Removing one entry of an account's list keeps the model invariant.
proof fn lemma_clear_ok(m: Map<AccountId, Seq<Seq<u8>>>, caller: AccountId, i: int)
    requires
        registry_invariant(m),
        m.contains_key(caller),
        0 <= i < m[caller].len(),
    ensures
        registry_invariant(m.insert(caller, m[caller].remove(i))),
{
    let l0 = m[caller];
    let l = l0.remove(i);
    l0.remove_ensures(i);
    lemma_own_list_facts(m, caller);
    assert forall|k: int| 0 <= k < l.len() implies #[trigger] l[k].len()
        <= MAX_NICKNAME_LEN as int by {
        if k < i {
            assert(l[k] == m[caller][k]);
        } else {
            assert(l[k] == m[caller][k + 1]);
        }
    }
    assert forall|k1: int, k2: int| #![trigger l[k1], l[k2]] 0 <= k1 < k2 < l.len() implies l[k1]
        != l[k2] by {
        let o1: int = if k1 < i { k1 } else { k1 + 1 };
        let o2: int = if k2 < i { k2 } else { k2 + 1 };
        assert(l[k1] == l0[o1] && l[k2] == l0[o2]);
        assert(list_of(m, caller)[o1] != list_of(m, caller)[o2]);
    }
    assert forall|b: AccountId, j: int, k: int|
        #![trigger m[b][j], l[k]]
        b != caller && m.contains_key(b) && 0 <= j < m[b].len() && 0 <= k
            < l.len() implies m[b][j] != l[k] by {
        let o: int = if k < i { k } else { k + 1 };
        assert(l[k] == l0[o]);
        assert(m[b][j] != list_of(m, caller)[o]);
    }
    lemma_invariant_insert(m, caller, l);
}

/// Replacing one entry of an account's list by a fresh, short-enough
/// nickname keeps the model invariant.
proof fn lemma_update_ok(m: Map<AccountId, Seq<Seq<u8>>>, caller: AccountId, i: int, n: Seq<u8>)
    requires
        registry_invariant(m),
        m.contains_key(caller),
        0 <= i < m[caller].len(),
        !nickname_taken(m, n),
        n.len() <= MAX_NICKNAME_LEN as int,
    ensures
        registry_invariant(m.insert(caller, m[caller].update(i, n))),
{
    let l0 = m[caller];
    let l = l0.update(i, n);
    lemma_own_list_facts(m, caller);
    assert forall|b: AccountId, j: int|
        m.contains_key(b) && 0 <= j < m[b].len() implies #[trigger] m[b][j] != n by {
        if m[b][j] == n {
            assert(m[b].contains(n));
            assert(nickname_taken(m, n));
        }
    }
    assert forall|k: int| 0 <= k < l.len() implies #[trigger] l[k].len()
        <= MAX_NICKNAME_LEN as int by {
        if k != i {
            assert(l[k] == m[caller][k]);
        }
    }
    assert forall|k1: int, k2: int| #![trigger l[k1], l[k2]] 0 <= k1 < k2 < l.len() implies l[k1]
        != l[k2] by {
        if k1 != i && k2 != i {
            assert(list_of(m, caller)[k1] != list_of(m, caller)[k2]);
        } else if k1 == i {
            assert(m[caller][k2] != n);
        } else {
            assert(m[caller][k1] != n);
        }
    }
    assert forall|b: AccountId, j: int, k: int|
        #![trigger m[b][j], l[k]]
        b != caller && m.contains_key(b) && 0 <= j < m[b].len() && 0 <= k
            < l.len() implies m[b][j] != l[k] by {
        if k != i {
            assert(m[b][j] != list_of(m, caller)[k]);
        } else {
            assert(m[b][j] != n);
        }
    }
    lemma_invariant_insert(m, caller, l);
}

impl Registry {
    /// All states the public operations can produce satisfy this:
    /// the representation is sound and the model invariant holds.
    pub closed spec fn wf(&self) -> bool {
        accounts_distinct(self.entries@) && registry_invariant(self@)
    }

    /// Every well-formed registry satisfies the model invariant:
    /// global uniqueness, the capacity bound and the length bound.
    pub proof fn lemma_wf_invariant(&self)
        requires
            self.wf(),
        ensures
            registry_invariant(self@),
    {
    }

    /// A fresh registry: no account has ever been touched.
    pub fn new() -> (r: Registry)
        ensures
            r.wf(),
            r@ == Map::<AccountId, Seq<Seq<u8>>>::empty(),
    {
        let r = Registry { entries: Vec::new() };
        proof {
            assert(r@ =~= Map::<AccountId, Seq<Seq<u8>>>::empty());
        }
        r
    }

    /// The index of the caller's slot, if the caller was ever touched.
    fn find_account(&self, a: AccountId) -> (r: Option<usize>)
        requires
            self.wf(),
        ensures
            match r {
                Some(i) => i < self.entries@.len() && self.entries@[i as int].account == a
                    && self@.contains_key(a),
                None => !self@.contains_key(a),
            },
    {
        let ghost s = self.entries@;
        let mut i: usize = 0;
        while i < self.entries.len()
            invariant
                self.wf(),
                s == self.entries@,
                i <= s.len(),
                forall|k: int| 0 <= k < i ==> s[k].account != a,
            decreases s.len() - i,
        {
            if self.entries[i].account == a {
                proof {
                    lemma_view_at(s, i as int);
                }
                return Some(i);
            }
            i += 1;
        }
        proof {
            if self@.contains_key(a) {
                lemma_view_key(s, a);
            }
        }
        None
    }

    /// Whether any account's list already holds the nickname `n`.
    fn is_taken(&self, n: &Vec<u8>) -> (r: bool)
        requires
            self.wf(),
        ensures
            r == nickname_taken(self@, n@),
    {
        let ghost s = self.entries@;
        let mut i: usize = 0;
        while i < self.entries.len()
            invariant
                self.wf(),
                s == self.entries@,
                i <= s.len(),
                forall|k: int, j: int|
                    #![trigger s[k].nicks@[j]]
                    0 <= k < i && 0 <= j < s[k].nicks@.len() ==> s[k].nicks@[j]@ != n@,
            decreases s.len() - i,
        {
            let entry = &self.entries[i];
            let mut j: usize = 0;
            while j < entry.nicks.len()
                invariant
                    self.wf(),
                    s == self.entries@,
                    entry == s[i as int],
                    i < s.len(),
                    j <= entry.nicks@.len(),
                    forall|jj: int| 0 <= jj < j ==> entry.nicks@[jj]@ != n@,
                decreases entry.nicks@.len() - j,
            {
                if bytes_eq(&entry.nicks[j], n) {
                    proof {
                        lemma_view_at(s, i as int);
                        assert(self@[entry.account][j as int] == n@);
                        assert(self@[entry.account].contains(n@));
                    }
                    return true;
                }
                j += 1;
            }
            i += 1;
        }
        proof {
            if nickname_taken(self@, n@) {
                let a = choose|a: AccountId| self@.contains_key(a) && self@[a].contains(n@);
                lemma_view_key(s, a);
                let k = account_index(s, a);
                let j = choose|j: int| 0 <= j < self@[a].len() && self@[a][j] == n@;
                assert(s[k].nicks@[j]@ == n@);
            }
        }
        false
    }

    /// Register one more nickname for the caller: append it to the
    /// caller's list. Fails if the nickname is over [`MAX_NICKNAME_LEN`]
    /// bytes, already registered to any account (the caller included), or
    /// the caller's list is at capacity; a failed call changes nothing.
    pub fn set_nickname(&mut self, caller: AccountId, nickname: Vec<u8>) -> (r: Result<
        Event,
        Error,
    >)
        requires
            old(self).wf(),
        ensures
            final(self).wf(),
            (match r {
                Ok(ev) => {
                    &&& set_result(old(self)@, caller, nickname@) is Ok
                    &&& final(self)@ == old(self)@.insert(
                        caller,
                        list_of(old(self)@, caller).push(nickname@),
                    )
                    &&& (ev matches Event::NicknameSet(a, n) && a == caller && n@ == nickname@)
                },
                Err(e) => {
                    &&& set_result(old(self)@, caller, nickname@) == Err::<(), Error>(e)
                    &&& *final(self) == *old(self)
                },
            }),
    {
        if nickname.len() > MAX_NICKNAME_LEN {
            return Err(Error::TooManyNicknames);
        }
        if self.is_taken(&nickname) {
            return Err(Error::NicknameInUse);
        }
        let ghost m = self@;
        let ghost s0 = self.entries@;
        match self.find_account(caller) {
            Some(i) => {
                proof {
                    lemma_view_at(s0, i as int);
                }
                if self.entries[i].nicks.len() >= MAX_NICKNAMES {
                    return Err(Error::TooManyNicknames);
                }
                let stored = clone_bytes(&nickname);
                let entry = &mut self.entries[i];
                entry.nicks.push(stored);
                proof {
                    let e2 = self.entries@[i as int];
                    assert(nicks_view(e2.nicks) =~= list_of(m, caller).push(nickname@));
                    lemma_view_update(s0, i as int, e2);
                    lemma_set_ok(m, caller, nickname@);
                }
                Ok(Event::NicknameSet(caller, nickname))
            },
            None => {
                let stored = clone_bytes(&nickname);
                let mut nicks: Vec<Vec<u8>> = Vec::new();
                nicks.push(stored);
                self.entries.push(AccountEntry { account: caller, nicks });
                proof {
                    let e = self.entries@.last();
                    assert(nicks_view(e.nicks) =~= list_of(m, caller).push(nickname@));
                    assert(!has_account(s0, caller)) by {
                        if has_account(s0, caller) {
                            let k = choose|k: int|
                                0 <= k < s0.len() && s0[k].account == caller;
                            lemma_view_at(s0, k);
                        }
                    }
                    lemma_view_push(s0, e);
                    lemma_set_ok(m, caller, nickname@);
                }
                Ok(Event::NicknameSet(caller, nickname))
            },
        }
    }

    /// Remove one of the caller's nicknames: take the first (under global
    /// uniqueness, the only) entry equal to `nickname` out of the caller's
    /// list, shifting later entries down one place. Fails if the caller was
    /// never touched or does not hold the nickname; a failed call changes
    /// nothing.
    pub fn clear_nickname(&mut self, caller: AccountId, nickname: Vec<u8>) -> (r: Result<
        Event,
        Error,
    >)
        requires
            old(self).wf(),
        ensures
            final(self).wf(),
            (match r {
                Ok(ev) => {
                    &&& clear_result(old(self)@, caller, nickname@) is Ok
                    &&& exists|i: int|
                        {
                            &&& 0 <= i < old(self)@[caller].len()
                            &&& old(self)@[caller][i] == nickname@
                            &&& (forall|k: int|
                                0 <= k < i ==> old(self)@[caller][k] != nickname@)
                            &&& final(self)@ == old(self)@.insert(
                                caller,
                                old(self)@[caller].remove(i),
                            )
                        }
                    &&& (ev matches Event::NicknameCleared(a) && a == caller)
                },
                Err(e) => {
                    &&& clear_result(old(self)@, caller, nickname@) == Err::<(), Error>(e)
                    &&& *final(self) == *old(self)
                },
            }),
    {
        let ghost m = self@;
        let ghost s0 = self.entries@;
        match self.find_account(caller) {
            None => Err(Error::NicknameNotFound),
            Some(i) => {
                proof {
                    lemma_view_at(s0, i as int);
                }
                match find_nick(&self.entries[i].nicks, &nickname) {
                    None => {
                        proof {
                            if m[caller].contains(nickname@) {
                                let k = choose|k: int|
                                    0 <= k < m[caller].len() && m[caller][k] == nickname@;
                                assert(s0[i as int].nicks@[k]@ == nickname@);
                            }
                        }
                        Err(Error::NicknameNotFound)
                    },
                    Some(j) => {
                        let entry = &mut self.entries[i];
                        entry.nicks.remove(j);
                        proof {
                            let e2 = self.entries@[i as int];
                            s0[i as int].nicks@.remove_ensures(j as int);
                            m[caller].remove_ensures(j as int);
                            assert(nicks_view(e2.nicks) =~= m[caller].remove(j as int));
                            lemma_view_update(s0, i as int, e2);
                            lemma_clear_ok(m, caller, j as int);
                            assert(m[caller].contains(nickname@)) by {
                                assert(m[caller][j as int] == nickname@);
                            }
                            assert forall|k: int| 0 <= k < j implies m[caller][k]
                                != nickname@ by {
                                assert(s0[i as int].nicks@[k]@ != nickname@);
                            }
                            assert(exists|i: int|
                                {
                                    &&& 0 <= i < m[caller].len()
                                    &&& m[caller][i] == nickname@
                                    &&& (forall|k: int| 0 <= k < i ==> m[caller][k] != nickname@)
                                    &&& self@ == m.insert(caller, m[caller].remove(i))
                                }) by {
                                let i = j as int;
                                assert(0 <= i < m[caller].len() && m[caller][i] == nickname@
                                    && (forall|k: int| 0 <= k < i ==> m[caller][k] != nickname@)
                                    && self@ == m.insert(caller, m[caller].remove(i)));
                            }
                        }
                        Ok(Event::NicknameCleared(caller))
                    },
                }
            },
        }
    }

    /// Rename one of the caller's nicknames: replace the first (under
    /// global uniqueness, the only) entry equal to `old_nickname` by
    /// `new_nickname`, in place. Fails if the new nickname is over
    /// [`MAX_NICKNAME_LEN`] bytes or already registered to any account (the
    /// caller included), or if the caller was never touched or does not
    /// hold the old nickname; a failed call changes nothing.
    pub fn update_nickname(
        &mut self,
        caller: AccountId,
        old_nickname: Vec<u8>,
        new_nickname: Vec<u8>,
    ) -> (r: Result<Event, Error>)
        requires
            old(self).wf(),
        ensures
            final(self).wf(),
            (match r {
                Ok(ev) => {
                    &&& update_result(old(self)@, caller, old_nickname@, new_nickname@) is Ok
                    &&& exists|i: int|
                        {
                            &&& 0 <= i < old(self)@[caller].len()
                            &&& old(self)@[caller][i] == old_nickname@
                            &&& (forall|k: int|
                                0 <= k < i ==> old(self)@[caller][k] != old_nickname@)
                            &&& final(self)@ == old(self)@.insert(
                                caller,
                                old(self)@[caller].update(i, new_nickname@),
                            )
                        }
                    &&& (ev matches Event::NicknameUpdated(a, n) && a == caller && n@
                        == new_nickname@)
                },
                Err(e) => {
                    &&& update_result(old(self)@, caller, old_nickname@, new_nickname@)
                        == Err::<(), Error>(e)
                    &&& *final(self) == *old(self)
                },
            }),
    {
        if new_nickname.len() > MAX_NICKNAME_LEN {
            return Err(Error::TooManyNicknames);
        }
        if self.is_taken(&new_nickname) {
            return Err(Error::NicknameInUse);
        }
        let ghost m = self@;
        let ghost s0 = self.entries@;
        match self.find_account(caller) {
            None => Err(Error::NicknameNotFound),
            Some(i) => {
                proof {
                    lemma_view_at(s0, i as int);
                }
                match find_nick(&self.entries[i].nicks, &old_nickname) {
                    None => {
                        proof {
                            if m[caller].contains(old_nickname@) {
                                let k = choose|k: int|
                                    0 <= k < m[caller].len() && m[caller][k] == old_nickname@;
                                assert(s0[i as int].nicks@[k]@ == old_nickname@);
                            }
                        }
                        Err(Error::NicknameNotFound)
                    },
                    Some(j) => {
                        let stored = clone_bytes(&new_nickname);
                        let entry = &mut self.entries[i];
                        entry.nicks.set(j, stored);
                        proof {
                            let e2 = self.entries@[i as int];
                            assert(nicks_view(e2.nicks) =~= m[caller].update(
                                j as int,
                                new_nickname@,
                            ));
                            lemma_view_update(s0, i as int, e2);
                            lemma_update_ok(m, caller, j as int, new_nickname@);
                            assert(m[caller].contains(old_nickname@)) by {
                                assert(m[caller][j as int] == old_nickname@);
                            }
                            assert forall|k: int| 0 <= k < j implies m[caller][k]
                                != old_nickname@ by {
                                assert(s0[i as int].nicks@[k]@ != old_nickname@);
                            }
                            assert(exists|i: int|
                                {
                                    &&& 0 <= i < m[caller].len()
                                    &&& m[caller][i] == old_nickname@
                                    &&& (forall|k: int|
                                        0 <= k < i ==> m[caller][k] != old_nickname@)
                                    &&& self@ == m.insert(
                                        caller,
                                        m[caller].update(i, new_nickname@),
                                    )
                                }) by {
                                let i = j as int;
                                assert(0 <= i < m[caller].len() && m[caller][i] == old_nickname@
                                    && (forall|k: int|
                                    0 <= k < i ==> m[caller][k] != old_nickname@) && self@
                                    == m.insert(caller, m[caller].update(i, new_nickname@)));
                            }
                        }
                        Ok(Event::NicknameUpdated(caller, new_nickname))
                    },
                }
            },
        }
    }

    /// An owned copy of the account's current nickname list, in order;
    /// empty for an account that was never touched.
    pub fn nickname_of(&self, account: AccountId) -> (r: Vec<Vec<u8>>)
        requires
            self.wf(),
        ensures
            r@.len() == list_of(self@, account).len(),
            forall|i: int|
                0 <= i < r@.len() ==> #[trigger] r@[i]@ == list_of(self@, account)[i],
    {
        match self.find_account(account) {
            None => Vec::new(),
            Some(i) => {
                proof {
                    lemma_view_at(self.entries@, i as int);
                }
                let nicks = &self.entries[i].nicks;
                let mut out: Vec<Vec<u8>> = Vec::new();
                let mut j: usize = 0;
                while j < nicks.len()
                    invariant
                        j <= nicks@.len(),
                        out@.len() == j,
                        forall|k: int| 0 <= k < j ==> #[trigger] out@[k]@ == nicks@[k]@,
                    decreases nicks@.len() - j,
                {
                    out.push(clone_bytes(&nicks[j]));
                    j += 1;
                }
                out
            },
        }
    }

}

} // verus!
