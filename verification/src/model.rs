//! The mathematical model of the registry: a map from account to its ordered
//! list of nicknames, the invariants that hold of every reachable state, and
//! spec functions that say exactly which outcome each operation has.

use vstd::prelude::*;

verus! {

/// Opaque caller identity supplied by the host environment; modelled as an
/// integer identifier, since only equality of identities matters here.
pub type AccountId = u64;

/// Upper bound on the byte length of a single nickname.
pub const MAX_NICKNAME_LEN: usize = 32;

/// Upper bound on how many nicknames one account may hold.
pub const MAX_NICKNAMES: usize = 3;

/// Why an operation was rejected.
#[derive(Clone, Copy, PartialEq, Eq, Structural, Debug)]
pub enum Error {
    /// The nickname is longer than [`MAX_NICKNAME_LEN`] bytes, or the
    /// caller's list already holds [`MAX_NICKNAMES`] entries.
    TooManyNicknames,
    /// The nickname is already registered, to the caller or to anyone else.
    NicknameInUse,
    /// The caller does not hold the referenced nickname.
    NicknameNotFound,
}

/// What a successful operation reports to the host's event sink.
#[derive(PartialEq, Eq, Debug)]
pub enum Event {
    /// A nickname was appended to the account's list.
    NicknameSet(AccountId, Vec<u8>),
    /// A nickname of the account was replaced by the given new one.
    NicknameUpdated(AccountId, Vec<u8>),
    /// A nickname of the account was removed; the removed value is not
    /// carried in the event.
    NicknameCleared(AccountId),
}

/// The list an account holds: its entry in the registry map, or the empty
/// list for an account that was never touched.
pub open spec fn list_of(m: Map<AccountId, Seq<Seq<u8>>>, a: AccountId) -> Seq<Seq<u8>> {
    if m.contains_key(a) {
        m[a]
    } else {
        Seq::empty()
    }
}

/// Whether some account (possibly the caller itself) already holds `n`.
pub open spec fn nickname_taken(m: Map<AccountId, Seq<Seq<u8>>>, n: Seq<u8>) -> bool {
    exists|a: AccountId| m.contains_key(a) && m[a].contains(n)
}

/// Every nickname occurs at exactly one position of one account's list.
pub open spec fn globally_unique(m: Map<AccountId, Seq<Seq<u8>>>) -> bool {
    forall|a: AccountId, b: AccountId, i: int, j: int|
        #![trigger m[a][i], m[b][j]]
        m.contains_key(a) && m.contains_key(b) && 0 <= i < m[a].len() && 0 <= j < m[b].len()
            && m[a][i] == m[b][j] ==> a == b && i == j
}

/// No account holds more than [`MAX_NICKNAMES`] nicknames.
pub open spec fn capacity_ok(m: Map<AccountId, Seq<Seq<u8>>>) -> bool {
    forall|a: AccountId| #[trigger] m.contains_key(a) ==> m[a].len() <= MAX_NICKNAMES as int
}

/// Every stored nickname is at most [`MAX_NICKNAME_LEN`] bytes long.
pub open spec fn lengths_ok(m: Map<AccountId, Seq<Seq<u8>>>) -> bool {
    forall|a: AccountId, i: int|
        #![trigger m[a][i]]
        m.contains_key(a) && 0 <= i < m[a].len() ==> m[a][i].len() <= MAX_NICKNAME_LEN as int
}

/// The invariant of every reachable registry state.
pub open spec fn registry_invariant(m: Map<AccountId, Seq<Seq<u8>>>) -> bool {
    globally_unique(m) && capacity_ok(m) && lengths_ok(m)
}

/// The outcome the set operation owes on state `m`: checks run in this
/// order, and success is owed whenever all of them pass.
pub open spec fn set_result(
    m: Map<AccountId, Seq<Seq<u8>>>,
    caller: AccountId,
    n: Seq<u8>,
) -> Result<(), Error> {
    if n.len() > MAX_NICKNAME_LEN as int {
        Err(Error::TooManyNicknames)
    } else if nickname_taken(m, n) {
        Err(Error::NicknameInUse)
    } else if list_of(m, caller).len() >= MAX_NICKNAMES as int {
        Err(Error::TooManyNicknames)
    } else {
        Ok(())
    }
}

/// The outcome the clear operation owes on state `m`.
pub open spec fn clear_result(
    m: Map<AccountId, Seq<Seq<u8>>>,
    caller: AccountId,
    n: Seq<u8>,
) -> Result<(), Error> {
    if !m.contains_key(caller) {
        Err(Error::NicknameNotFound)
    } else if !m[caller].contains(n) {
        Err(Error::NicknameNotFound)
    } else {
        Ok(())
    }
}

/// The outcome the update operation owes on state `m`.
pub open spec fn update_result(
    m: Map<AccountId, Seq<Seq<u8>>>,
    caller: AccountId,
    old_n: Seq<u8>,
    new_n: Seq<u8>,
) -> Result<(), Error> {
    if new_n.len() > MAX_NICKNAME_LEN as int {
        Err(Error::TooManyNicknames)
    } else if nickname_taken(m, new_n) {
        Err(Error::NicknameInUse)
    } else if !m.contains_key(caller) {
        Err(Error::NicknameNotFound)
    } else if !m[caller].contains(old_n) {
        Err(Error::NicknameNotFound)
    } else {
        Ok(())
    }
}

} // verus!
