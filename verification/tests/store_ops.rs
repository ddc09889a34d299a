use solanke_backend::store::ProductStore;
use solanke_backend::{CallerId, Choice, Product, ProductError};

fn caller(tag: u8) -> CallerId {
    CallerId::new(vec![tag, tag, tag])
}

fn same_caller(a: &CallerId, b: &CallerId) -> bool {
    a.bytes == b.bytes
}

#[test]
fn count_tracks_creates_and_ids_increase() {
    let mut s = ProductStore::new();
    let me = caller(1);
    assert_eq!(s.get_product_count(), 0);
    let mut last_id: Option<u64> = None;
    for k in 0..5u64 {
        let p = s
            .create_product(&me, format!("item {}", k).into_bytes(), true)
            .unwrap();
        if let Some(prev) = last_id {
            assert!(p.id > prev);
        }
        last_id = Some(p.id);
        assert_eq!(s.get_product_count(), k + 1);
    }
}

#[test]
fn create_then_get_returns_fresh_record() {
    let mut s = ProductStore::new();
    let me = caller(7);
    let created = s.create_product(&me, b"x".to_vec(), true).unwrap();
    let got = s.get_product(created.id).unwrap();
    assert_eq!(got.id, created.id);
    assert_eq!(got.description, b"x".to_vec());
    assert_eq!(got.approve, 0);
    assert_eq!(got.reject, 0);
    assert_eq!(got.pass, 0);
    assert!(got.is_active);
    assert!(got.voted.is_empty());
    assert!(same_caller(&got.owner, &me));
}

#[test]
fn vote_twice_same_caller_already_added() {
    let mut s = ProductStore::new();
    let owner = caller(1);
    let voter = caller(2);
    let p = s.create_product(&owner, b"poll".to_vec(), true).unwrap();
    assert_eq!(s.vote(&voter, p.id, Choice::Approve), Ok(()));
    assert_eq!(
        s.vote(&voter, p.id, Choice::Reject),
        Err(ProductError::AlreadyAdded)
    );
    let got = s.get_product(p.id).unwrap();
    assert_eq!(got.approve, 1);
    assert_eq!(got.reject, 0);
    assert_eq!(got.voted.len(), 1);
}

#[test]
fn end_by_non_owner_rejected_then_vote_inactive() {
    let mut s = ProductStore::new();
    let owner = caller(1);
    let stranger = caller(2);
    let p = s.create_product(&owner, b"poll".to_vec(), true).unwrap();
    assert_eq!(
        s.end_product(&stranger, p.id),
        Err(ProductError::AccessRejected)
    );
    assert_eq!(s.end_product(&owner, p.id), Ok(()));
    assert_eq!(
        s.vote(&stranger, p.id, Choice::Pass),
        Err(ProductError::ProductIsNotActive)
    );
}

#[test]
fn duplicate_vote_wins_over_inactive() {
    let mut s = ProductStore::new();
    let owner = caller(1);
    let voter = caller(2);
    let p = s.create_product(&owner, b"poll".to_vec(), true).unwrap();
    assert_eq!(s.vote(&voter, p.id, Choice::Pass), Ok(()));
    assert_eq!(s.end_product(&owner, p.id), Ok(()));
    // the duplicate-vote check comes before the activity check
    assert_eq!(
        s.vote(&voter, p.id, Choice::Pass),
        Err(ProductError::AlreadyAdded)
    );
}

#[test]
fn edit_by_non_owner_leaves_record_unchanged() {
    let mut s = ProductStore::new();
    let owner = caller(1);
    let stranger = caller(2);
    let p = s.create_product(&owner, b"original".to_vec(), true).unwrap();
    assert_eq!(
        s.edit_product(&stranger, p.id, b"hijacked".to_vec(), false),
        Err(ProductError::AccessRejected)
    );
    let got = s.get_product(p.id).unwrap();
    assert_eq!(got.description, b"original".to_vec());
    assert!(got.is_active);
    assert!(same_caller(&got.owner, &owner));
}

#[test]
fn edit_by_owner_replaces_description_and_flag_only() {
    let mut s = ProductStore::new();
    let owner = caller(1);
    let voter = caller(2);
    let p = s.create_product(&owner, b"before".to_vec(), true).unwrap();
    assert_eq!(s.vote(&voter, p.id, Choice::Approve), Ok(()));
    assert_eq!(s.edit_product(&owner, p.id, b"after".to_vec(), false), Ok(()));
    let got = s.get_product(p.id).unwrap();
    assert_eq!(got.description, b"after".to_vec());
    assert!(!got.is_active);
    assert_eq!(got.id, p.id);
    assert_eq!(got.approve, 1);
    assert_eq!(got.voted.len(), 1);
    assert!(same_caller(&got.owner, &owner));
}

#[test]
fn end_twice_is_idempotent() {
    let mut s = ProductStore::new();
    let owner = caller(1);
    let p = s.create_product(&owner, b"poll".to_vec(), true).unwrap();
    assert_eq!(s.end_product(&owner, p.id), Ok(()));
    assert_eq!(s.end_product(&owner, p.id), Ok(()));
    let got = s.get_product(p.id).unwrap();
    assert!(!got.is_active);
}

#[test]
fn each_choice_increments_its_counter() {
    let mut s = ProductStore::new();
    let owner = caller(1);
    let p = s.create_product(&owner, b"poll".to_vec(), true).unwrap();
    assert_eq!(s.vote(&caller(2), p.id, Choice::Approve), Ok(()));
    assert_eq!(s.vote(&caller(3), p.id, Choice::Reject), Ok(()));
    assert_eq!(s.vote(&caller(4), p.id, Choice::Pass), Ok(()));
    assert_eq!(s.vote(&caller(5), p.id, Choice::Approve), Ok(()));
    let got = s.get_product(p.id).unwrap();
    assert_eq!(got.approve, 2);
    assert_eq!(got.reject, 1);
    assert_eq!(got.pass, 1);
    assert_eq!(got.voted.len(), 4);
}

#[test]
fn absent_id_gives_no_such_product() {
    let mut s = ProductStore::new();
    let me = caller(1);
    assert!(s.get_product(42).is_none());
    assert_eq!(
        s.edit_product(&me, 42, b"x".to_vec(), true),
        Err(ProductError::NoSuchProduct)
    );
    assert_eq!(s.end_product(&me, 42), Err(ProductError::NoSuchProduct));
    assert_eq!(
        s.vote(&me, 42, Choice::Approve),
        Err(ProductError::NoSuchProduct)
    );
}

#[test]
fn oversize_record_gives_update_failed() {
    let mut s = ProductStore::new();
    let me = caller(1);
    let big = vec![b'a'; 6000];
    assert!(matches!(
        s.create_product(&me, big.clone(), true),
        Err(ProductError::UpdateFailed)
    ));
    assert_eq!(s.get_product_count(), 0);
    let p = s.create_product(&me, b"small".to_vec(), true).unwrap();
    assert_eq!(
        s.edit_product(&me, p.id, big, true),
        Err(ProductError::UpdateFailed)
    );
    let got = s.get_product(p.id).unwrap();
    assert_eq!(got.description, b"small".to_vec());
}

#[test]
fn owner_may_edit_inactive_record() {
    let mut s = ProductStore::new();
    let owner = caller(1);
    let p = s.create_product(&owner, b"poll".to_vec(), true).unwrap();
    assert_eq!(s.end_product(&owner, p.id), Ok(()));
    assert_eq!(s.edit_product(&owner, p.id, b"renamed".to_vec(), false), Ok(()));
    let got = s.get_product(p.id).unwrap();
    assert_eq!(got.description, b"renamed".to_vec());
    assert!(!got.is_active);
}

fn assert_products_equal(a: &Product, b: &Product) {
    assert_eq!(a.id, b.id);
    assert_eq!(a.description, b.description);
    assert_eq!(a.approve, b.approve);
    assert_eq!(a.reject, b.reject);
    assert_eq!(a.pass, b.pass);
    assert_eq!(a.is_active, b.is_active);
    assert_eq!(a.voted.len(), b.voted.len());
    for (x, y) in a.voted.iter().zip(b.voted.iter()) {
        assert_eq!(x.bytes, y.bytes);
    }
    assert_eq!(a.owner.bytes, b.owner.bytes);
}

#[test]
fn record_survives_storage_byte_for_byte() {
    let mut s = ProductStore::new();
    let owner = caller(9);
    let p = s.create_product(&owner, b"kept".to_vec(), true).unwrap();
    assert_eq!(s.vote(&caller(2), p.id, Choice::Reject), Ok(()));
    let first = s.get_product(p.id).unwrap();
    let second = s.get_product(p.id).unwrap();
    assert_products_equal(&first, &second);
    assert_eq!(first.reject, 1);
}

#[test]
fn open_on_fresh_memory_is_empty_and_usable() {
    // off-chain each store attaches to a fresh in-process memory, so
    // recovery finds nothing to validate and yields an empty store
    let mut s = ProductStore::open().expect("fresh memory must validate");
    assert_eq!(s.get_product_count(), 0);
    assert!(s.get_product(0).is_none());
    let me = caller(1);
    let p = s.create_product(&me, b"first".to_vec(), true).unwrap();
    assert_eq!(p.id, 0);
    assert_eq!(s.get_product_count(), 1);
}
