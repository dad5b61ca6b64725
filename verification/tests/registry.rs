use nickname_registry::{Error, Event, Registry};

fn b(s: &str) -> Vec<u8> {
    s.as_bytes().to_vec()
}

const ALICE: u64 = 1;
const BOB: u64 = 2;

#[test]
fn set_on_empty_registry() {
    let mut r = Registry::new();
    let res = r.set_nickname(ALICE, b("bob"));
    assert_eq!(res, Ok(Event::NicknameSet(ALICE, b("bob"))));
    assert_eq!(r.nickname_of(ALICE), vec![b("bob")]);
}

#[test]
fn set_taken_nickname_fails() {
    let mut r = Registry::new();
    assert!(r.set_nickname(ALICE, b("bob")).is_ok());
    let res = r.set_nickname(BOB, b("bob"));
    assert_eq!(res, Err(Error::NicknameInUse));
    assert_eq!(r.nickname_of(BOB), Vec::<Vec<u8>>::new());
}

#[test]
fn set_own_nickname_again_fails() {
    let mut r = Registry::new();
    assert!(r.set_nickname(ALICE, b("bob")).is_ok());
    let res = r.set_nickname(ALICE, b("bob"));
    assert_eq!(res, Err(Error::NicknameInUse));
    assert_eq!(r.nickname_of(ALICE), vec![b("bob")]);
}

#[test]
fn fourth_set_fails_with_too_many() {
    let mut r = Registry::new();
    assert!(r.set_nickname(ALICE, b("bob")).is_ok());
    assert!(r.set_nickname(ALICE, b("carl")).is_ok());
    assert!(r.set_nickname(ALICE, b("dave")).is_ok());
    let res = r.set_nickname(ALICE, b("eve"));
    assert_eq!(res, Err(Error::TooManyNicknames));
    assert_eq!(r.nickname_of(ALICE), vec![b("bob"), b("carl"), b("dave")]);
}

#[test]
fn set_rejects_over_long_nickname() {
    let mut r = Registry::new();
    let long = vec![120u8; 33];
    assert_eq!(r.set_nickname(ALICE, long), Err(Error::TooManyNicknames));
    assert_eq!(r.nickname_of(ALICE), Vec::<Vec<u8>>::new());
}

#[test]
fn set_accepts_limit_length_nickname() {
    let mut r = Registry::new();
    let exact = vec![120u8; 32];
    assert!(r.set_nickname(ALICE, exact.clone()).is_ok());
    assert_eq!(r.nickname_of(ALICE), vec![exact]);
}

#[test]
fn set_accepts_empty_nickname() {
    let mut r = Registry::new();
    assert!(r.set_nickname(ALICE, Vec::new()).is_ok());
    assert_eq!(r.nickname_of(ALICE), vec![Vec::<u8>::new()]);
}

#[test]
fn length_check_comes_before_uniqueness_check() {
    let mut r = Registry::new();
    let long = vec![120u8; 33];
    assert!(r.set_nickname(ALICE, b("bob")).is_ok());
    // An over-long duplicate is reported as too long, not as in use.
    assert_eq!(r.set_nickname(BOB, long), Err(Error::TooManyNicknames));
}

#[test]
fn uniqueness_check_comes_before_capacity_check() {
    let mut r = Registry::new();
    assert!(r.set_nickname(ALICE, b("a")).is_ok());
    assert!(r.set_nickname(ALICE, b("b")).is_ok());
    assert!(r.set_nickname(ALICE, b("c")).is_ok());
    assert!(r.set_nickname(BOB, b("d")).is_ok());
    // Alice is full and "d" is taken: the uniqueness error wins.
    assert_eq!(r.set_nickname(ALICE, b("d")), Err(Error::NicknameInUse));
}

#[test]
fn update_replaces_in_place() {
    let mut r = Registry::new();
    assert!(r.set_nickname(ALICE, b("bob")).is_ok());
    let res = r.update_nickname(ALICE, b("bob"), b("robert"));
    assert_eq!(res, Ok(Event::NicknameUpdated(ALICE, b("robert"))));
    assert_eq!(r.nickname_of(ALICE), vec![b("robert")]);
}

#[test]
fn update_keeps_position_of_other_entries() {
    let mut r = Registry::new();
    assert!(r.set_nickname(ALICE, b("a")).is_ok());
    assert!(r.set_nickname(ALICE, b("b")).is_ok());
    assert!(r.set_nickname(ALICE, b("c")).is_ok());
    assert!(r.update_nickname(ALICE, b("b"), b("x")).is_ok());
    assert_eq!(r.nickname_of(ALICE), vec![b("a"), b("x"), b("c")]);
}

#[test]
fn update_frees_old_nickname_for_reuse() {
    let mut r = Registry::new();
    assert!(r.set_nickname(ALICE, b("bob")).is_ok());
    assert!(r.update_nickname(ALICE, b("bob"), b("robert")).is_ok());
    assert_eq!(
        r.set_nickname(BOB, b("bob")),
        Ok(Event::NicknameSet(BOB, b("bob")))
    );
    assert_eq!(r.nickname_of(BOB), vec![b("bob")]);
}

#[test]
fn update_to_taken_nickname_fails() {
    let mut r = Registry::new();
    assert!(r.set_nickname(ALICE, b("bob")).is_ok());
    assert!(r.set_nickname(BOB, b("carl")).is_ok());
    let res = r.update_nickname(ALICE, b("bob"), b("carl"));
    assert_eq!(res, Err(Error::NicknameInUse));
    assert_eq!(r.nickname_of(ALICE), vec![b("bob")]);
}

#[test]
fn update_to_same_nickname_fails_as_in_use() {
    let mut r = Registry::new();
    assert!(r.set_nickname(ALICE, b("bob")).is_ok());
    let res = r.update_nickname(ALICE, b("bob"), b("bob"));
    assert_eq!(res, Err(Error::NicknameInUse));
    assert_eq!(r.nickname_of(ALICE), vec![b("bob")]);
}

#[test]
fn update_rejects_over_long_nickname() {
    let mut r = Registry::new();
    assert!(r.set_nickname(ALICE, b("bob")).is_ok());
    let long = vec![120u8; 33];
    let res = r.update_nickname(ALICE, b("bob"), long);
    assert_eq!(res, Err(Error::TooManyNicknames));
    assert_eq!(r.nickname_of(ALICE), vec![b("bob")]);
}

#[test]
fn update_for_untouched_account_fails() {
    let mut r = Registry::new();
    let res = r.update_nickname(ALICE, b("bob"), b("robert"));
    assert_eq!(res, Err(Error::NicknameNotFound));
}

#[test]
fn update_of_missing_nickname_fails() {
    let mut r = Registry::new();
    assert!(r.set_nickname(ALICE, b("bob")).is_ok());
    let res = r.update_nickname(ALICE, b("carl"), b("dave"));
    assert_eq!(res, Err(Error::NicknameNotFound));
    assert_eq!(r.nickname_of(ALICE), vec![b("bob")]);
}

#[test]
fn clear_for_untouched_account_fails() {
    let mut r = Registry::new();
    let res = r.clear_nickname(ALICE, b("x"));
    assert_eq!(res, Err(Error::NicknameNotFound));
}

#[test]
fn clear_removes_first_element() {
    let mut r = Registry::new();
    assert!(r.set_nickname(ALICE, b("bob")).is_ok());
    assert!(r.set_nickname(ALICE, b("carl")).is_ok());
    let res = r.clear_nickname(ALICE, b("bob"));
    assert_eq!(res, Ok(Event::NicknameCleared(ALICE)));
    assert_eq!(r.nickname_of(ALICE), vec![b("carl")]);
}

#[test]
fn clear_of_middle_element_keeps_order() {
    let mut r = Registry::new();
    assert!(r.set_nickname(ALICE, b("a")).is_ok());
    assert!(r.set_nickname(ALICE, b("b")).is_ok());
    assert!(r.set_nickname(ALICE, b("c")).is_ok());
    assert!(r.clear_nickname(ALICE, b("b")).is_ok());
    assert_eq!(r.nickname_of(ALICE), vec![b("a"), b("c")]);
}

#[test]
fn clear_of_missing_nickname_fails() {
    let mut r = Registry::new();
    assert!(r.set_nickname(ALICE, b("bob")).is_ok());
    let res = r.clear_nickname(ALICE, b("x"));
    assert_eq!(res, Err(Error::NicknameNotFound));
    assert_eq!(r.nickname_of(ALICE), vec![b("bob")]);
}

#[test]
fn clear_of_someone_elses_nickname_fails() {
    let mut r = Registry::new();
    assert!(r.set_nickname(ALICE, b("bob")).is_ok());
    assert!(r.set_nickname(BOB, b("carl")).is_ok());
    let res = r.clear_nickname(ALICE, b("carl"));
    assert_eq!(res, Err(Error::NicknameNotFound));
    assert_eq!(r.nickname_of(BOB), vec![b("carl")]);
}

#[test]
fn cleared_account_stays_touched_but_empty() {
    let mut r = Registry::new();
    assert!(r.set_nickname(ALICE, b("bob")).is_ok());
    assert!(r.clear_nickname(ALICE, b("bob")).is_ok());
    assert_eq!(r.nickname_of(ALICE), Vec::<Vec<u8>>::new());
    // The list exists but is empty: clearing again still finds nothing.
    assert_eq!(r.clear_nickname(ALICE, b("bob")), Err(Error::NicknameNotFound));
    // The cleared name is free again.
    assert_eq!(
        r.set_nickname(BOB, b("bob")),
        Ok(Event::NicknameSet(BOB, b("bob")))
    );
}

#[test]
fn new_registry_has_no_nicknames() {
    let r = Registry::new();
    assert_eq!(r.nickname_of(ALICE), Vec::<Vec<u8>>::new());
}

#[test]
fn lists_of_two_accounts_stay_disjoint() {
    let mut r = Registry::new();
    assert!(r.set_nickname(ALICE, b("a")).is_ok());
    assert!(r.set_nickname(ALICE, b("b")).is_ok());
    assert!(r.set_nickname(BOB, b("c")).is_ok());
    assert!(r.update_nickname(BOB, b("c"), b("d")).is_ok());
    let alice = r.nickname_of(ALICE);
    let bob = r.nickname_of(BOB);
    for n in &alice {
        assert!(!bob.contains(n));
    }
}
