use recovery_registry::errors::GuardianError;
use recovery_registry::registry::{call, GuardianRegistry};
use recovery_registry::types::{AccountId, PublicKey};

fn acct(bytes: &[u8]) -> AccountId {
    AccountId::new(bytes.to_vec())
}

fn key(bytes: &[u8]) -> PublicKey {
    PublicKey::new(bytes.to_vec())
}

fn three_keys() -> Vec<PublicKey> {
    vec![key(&[1, 1]), key(&[2, 2]), key(&[3, 3])]
}

#[test]
fn fresh_account_has_no_record() {
    let r = GuardianRegistry::new();
    let a = acct(&[9; 32]);
    assert!(!r.has_guardians(&a));
    assert!(!r.is_guardian(&a, &key(&[1, 1])));
    assert!(matches!(r.get_guardians(&a), Err(GuardianError::AccountNotFound)));
    assert!(matches!(r.get_threshold(&a), Err(GuardianError::AccountNotFound)));
}

#[test]
fn too_few_guardians_rejected_whatever_the_threshold() {
    for t in [0u32, 1, 5] {
        let mut r = GuardianRegistry::new();
        let a = acct(&[1; 32]);
        let res = r.initialize_guardians(&a, vec![key(&[1, 1])], t);
        assert!(matches!(res, Err(GuardianError::InvalidGuardianSetup)));
        assert!(!r.has_guardians(&a));
    }
}

#[test]
fn empty_guardian_list_rejected() {
    let mut r = GuardianRegistry::new();
    let a = acct(&[1; 32]);
    let res = r.initialize_guardians(&a, Vec::new(), 1);
    assert!(matches!(res, Err(GuardianError::InvalidGuardianSetup)));
}

#[test]
fn threshold_bounds() {
    let a = acct(&[2; 32]);
    for t in 0u32..=4 {
        let mut r = GuardianRegistry::new();
        let res = r.initialize_guardians(&a, three_keys(), t);
        if (1..=3).contains(&t) {
            assert!(res.is_ok(), "threshold {t} should be accepted");
            assert_eq!(r.get_threshold(&a).unwrap(), t);
        } else {
            assert!(
                matches!(res, Err(GuardianError::InvalidThreshold)),
                "threshold {t} should be rejected"
            );
            assert!(!r.has_guardians(&a));
        }
    }
}

#[test]
fn duplicate_guardians_rejected() {
    let mut r = GuardianRegistry::new();
    let a = acct(&[3; 32]);
    let dup = vec![key(&[1, 1]), key(&[2, 2]), key(&[1, 1])];
    let res = r.initialize_guardians(&a, dup, 2);
    assert!(matches!(res, Err(GuardianError::InvalidGuardianSetup)));
    assert!(!r.has_guardians(&a));
}

#[test]
fn duplicate_at_minimum_length_rejected() {
    let mut r = GuardianRegistry::new();
    let a = acct(&[3; 32]);
    let dup = vec![key(&[7, 7]), key(&[7, 7])];
    let res = r.initialize_guardians(&a, dup, 1);
    assert!(matches!(res, Err(GuardianError::InvalidGuardianSetup)));
}

#[test]
fn membership_and_order_after_initialization() {
    let mut r = GuardianRegistry::new();
    let a = acct(&[4; 32]);
    assert!(r.initialize_guardians(&a, three_keys(), 2).is_ok());
    assert!(r.has_guardians(&a));
    assert!(r.is_guardian(&a, &key(&[2, 2])));
    assert!(!r.is_guardian(&a, &key(&[4, 4])));
    assert_eq!(r.get_guardians(&a).unwrap(), three_keys());
    assert_eq!(r.get_threshold(&a).unwrap(), 2);
}

#[test]
fn minimum_sized_setup_accepted() {
    let mut r = GuardianRegistry::new();
    let a = acct(&[5; 32]);
    let two = vec![key(&[1, 1]), key(&[2, 2])];
    assert!(r.initialize_guardians(&a, two.clone(), 2).is_ok());
    assert_eq!(r.get_guardians(&a).unwrap(), two);
    assert_eq!(r.get_threshold(&a).unwrap(), 2);
}

#[test]
fn second_initialization_locked_out() {
    let mut r = GuardianRegistry::new();
    let a = acct(&[6; 32]);
    assert!(r.initialize_guardians(&a, three_keys(), 2).is_ok());
    // a well-formed retry is refused and changes nothing
    let retry = vec![key(&[8, 8]), key(&[9, 9])];
    let res = r.initialize_guardians(&a, retry, 1);
    assert!(matches!(res, Err(GuardianError::AlreadyInitialized)));
    assert_eq!(r.get_guardians(&a).unwrap(), three_keys());
    assert_eq!(r.get_threshold(&a).unwrap(), 2);
    // and a third attempt fares no better
    let res = r.initialize_guardians(&a, three_keys(), 3);
    assert!(matches!(res, Err(GuardianError::AlreadyInitialized)));
    assert_eq!(r.get_threshold(&a).unwrap(), 2);
}

#[test]
fn cross_account_isolation() {
    let mut r = GuardianRegistry::new();
    let a = acct(&[10; 32]);
    let b = acct(&[11; 32]);
    assert!(r.initialize_guardians(&a, three_keys(), 2).is_ok());
    // before its own setup, account b still reads as empty
    assert!(!r.has_guardians(&b));
    assert!(!r.is_guardian(&b, &key(&[1, 1])));
    assert!(matches!(r.get_guardians(&b), Err(GuardianError::AccountNotFound)));
    // setting up b with different values leaves a untouched
    let b_keys = vec![key(&[21, 21]), key(&[22, 22])];
    assert!(r.initialize_guardians(&b, b_keys.clone(), 1).is_ok());
    assert_eq!(r.get_guardians(&a).unwrap(), three_keys());
    assert_eq!(r.get_threshold(&a).unwrap(), 2);
    assert_eq!(r.get_guardians(&b).unwrap(), b_keys);
    assert_eq!(r.get_threshold(&b).unwrap(), 1);
    assert!(!r.is_guardian(&a, &key(&[21, 21])));
    assert!(!r.is_guardian(&b, &key(&[1, 1])));
}

#[test]
fn accounts_differing_in_one_byte_are_distinct() {
    let mut r = GuardianRegistry::new();
    let mut a_bytes = [0u8; 32];
    a_bytes[31] = 1;
    let mut b_bytes = [0u8; 32];
    b_bytes[31] = 2;
    let a = acct(&a_bytes);
    let b = acct(&b_bytes);
    assert!(r.initialize_guardians(&a, three_keys(), 3).is_ok());
    assert!(!r.has_guardians(&b));
    assert!(r.initialize_guardians(&b, three_keys(), 1).is_ok());
    assert_eq!(r.get_threshold(&a).unwrap(), 3);
    assert_eq!(r.get_threshold(&b).unwrap(), 1);
}

#[test]
fn deployment_entry_is_a_no_op() {
    call();
    let r = GuardianRegistry::new();
    assert!(!r.has_guardians(&acct(&[0; 32])));
}
