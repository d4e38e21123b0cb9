use split_ledger::assignment::AssignmentTable;
use split_ledger::exclusion::ExclusionLedger;
use split_ledger::store::EntityStore;
use split_ledger::{LedgerError, Participant, Receipt};

fn is_random_uuid(id: u128) -> bool {
    (id >> 76) & 0xf == 4 && (id >> 62) & 0x3 == 2
}

#[test]
fn drawn_identifiers_are_random_uuids() {
    let p = Participant::new("Matti".to_string());
    assert!(is_random_uuid(p.id));
    assert_eq!(p.name, "Matti");
    assert_eq!(uuid::Uuid::from_u128(p.id).get_version_num(), 4);
    let r = Receipt::new("Sello".to_string(), 6999, false);
    assert!(is_random_uuid(r.id));
    assert_eq!(uuid::Uuid::from_u128(r.id).get_version_num(), 4);
    assert_eq!(r.label, "Sello");
    assert_eq!(r.total, 6999);
    assert!(!r.exclusion);
    assert_ne!(p.id, r.id);
}

#[test]
fn records_keep_what_they_are_given() {
    let p = Participant::with_id(7, "Liisa".to_string());
    assert_eq!((p.id, p.name.as_str()), (7, "Liisa"));
    let r = Receipt::with_id(8, "item".to_string(), 299, true);
    assert_eq!((r.id, r.label.as_str(), r.total, r.exclusion), (8, "item", 299, true));
    let copy = r.clone();
    assert_eq!((copy.id, copy.label.as_str(), copy.total, copy.exclusion), (8, "item", 299, true));
    let twin = p.clone();
    assert_eq!((twin.id, twin.name.as_str()), (7, "Liisa"));
}

#[test]
fn store_adds_in_order_and_refuses_taken_identifiers() {
    let mut store = EntityStore::new();
    assert!(store.participants().is_empty());
    assert!(store.receipts().is_empty());
    assert_eq!(store.insert_participant(Participant::with_id(1, "a".to_string())), Ok(()));
    assert_eq!(store.insert_participant(Participant::with_id(2, "b".to_string())), Ok(()));
    assert_eq!(
        store.insert_participant(Participant::with_id(1, "c".to_string())),
        Err(LedgerError::DuplicateId)
    );
    assert_eq!(store.insert_receipt(Receipt::with_id(1, "r".to_string(), 10, false)), Ok(()));
    assert_eq!(
        store.insert_receipt(Receipt::with_id(1, "s".to_string(), 20, true)),
        Err(LedgerError::DuplicateId)
    );
    let names: Vec<&str> = store.participants().iter().map(|p| p.name.as_str()).collect();
    assert_eq!(names, vec!["a", "b"]);
    assert_eq!(store.receipts().len(), 1);
    assert_eq!(store.receipt_id_list(), vec![1]);
    assert_eq!(store.find_participant(2), Some(1));
    assert_eq!(store.find_participant(3), None);
    assert_eq!(store.find_receipt(1), Some(0));
    assert_eq!(store.find_receipt(2), None);
}

#[test]
fn store_draws_identifiers_for_new_records() {
    let mut store = EntityStore::new();
    let a = store.add_participant("a".to_string()).unwrap();
    let b = store.add_participant("b".to_string()).unwrap();
    let r = store.add_receipt("r".to_string(), 5, false).unwrap();
    assert_ne!(a, b);
    assert!(is_random_uuid(a) && is_random_uuid(b) && is_random_uuid(r));
    assert_eq!(store.participants()[0].id, a);
    assert_eq!(store.participants()[1].id, b);
    assert_eq!(store.receipts()[0].id, r);
    assert_eq!(store.receipts()[0].total, 5);
}

#[test]
fn store_removes_by_identifier() {
    let mut store = EntityStore::new();
    for (id, name) in [(1, "a"), (2, "b"), (3, "c")] {
        store.insert_participant(Participant::with_id(id, name.to_string())).unwrap();
        store.insert_receipt(Receipt::with_id(id, name.to_string(), 1, false)).unwrap();
    }
    let gone = store.remove_participant(2).unwrap();
    assert_eq!((gone.id, gone.name.as_str()), (2, "b"));
    assert!(store.remove_participant(2).is_none());
    let ids: Vec<u128> = store.participants().iter().map(|p| p.id).collect();
    assert_eq!(ids, vec![1, 3]);
    let gone = store.remove_receipt(1).unwrap();
    assert_eq!(gone.id, 1);
    assert!(store.remove_receipt(1).is_none());
    assert_eq!(store.receipt_id_list(), vec![2, 3]);
}

#[test]
fn table_toggles_back_and_forth() {
    let mut table = AssignmentTable::new();
    assert!(!table.is_registered(1));
    assert!(!table.toggle(1, 10));
    assert!(!table.is_assigned(1, 10));
    table.set_default_assignment(1, &vec![10, 11]);
    assert!(table.is_registered(1));
    assert!(table.is_assigned(1, 10));
    assert!(table.is_assigned(1, 11));
    assert!(!table.is_assigned(1, 12));
    assert!(!table.is_assigned(2, 10));
    assert!(table.toggle(1, 10));
    assert!(!table.is_assigned(1, 10));
    assert!(table.is_assigned(1, 11));
    assert!(table.toggle(1, 10));
    assert!(table.is_assigned(1, 10));
    assert!(table.toggle(1, 12));
    assert!(table.is_assigned(1, 12));
}

#[test]
fn table_assigns_and_drops() {
    let mut table = AssignmentTable::new();
    table.set_default_assignment(1, &vec![]);
    assert!(table.assign(1, 5));
    assert!(table.assign(1, 5));
    assert!(table.is_assigned(1, 5));
    assert!(!table.assign(2, 5));
    assert!(!table.is_registered(2));
    assert!(table.unassign(1, 5));
    assert!(!table.is_assigned(1, 5));
    assert!(table.unassign(1, 5));
    assert!(!table.unassign(2, 5));
    table.set_default_assignment(1, &vec![7]);
    assert!(table.remove_participant(1));
    assert!(!table.remove_participant(1));
    assert!(!table.is_assigned(1, 7));
    table.set_default_assignment(1, &vec![7, 7, 8]);
    table.set_default_assignment(1, &vec![9]);
    assert!(!table.is_assigned(1, 7));
    assert!(table.is_assigned(1, 9));
}

#[test]
fn ledger_keeps_one_exclusion_for_a_parent() {
    let mut ledger = ExclusionLedger::new();
    assert_eq!(ledger.exclusion_amount(1), 0);
    assert!(ledger.exclusion_of(1).is_none());
    ledger.exclude(1, Receipt::with_id(20, "first".to_string(), 300, true));
    assert_eq!(ledger.exclusion_amount(1), 300);
    ledger.exclude(1, Receipt::with_id(21, "second".to_string(), 100, true));
    assert_eq!(ledger.exclusion_amount(1), 100);
    assert_eq!(ledger.exclusion_of(1).unwrap().label, "second");
    assert_eq!(ledger.parent_of(21), Some(1));
    assert_eq!(ledger.parent_of(20), None);
    assert!(!ledger.remove_by_exclusion_id(20));
    assert_eq!(ledger.exclusion_amount(1), 100);
    assert!(ledger.remove_by_exclusion_id(21));
    assert_eq!(ledger.exclusion_amount(1), 0);
    assert!(!ledger.remove_by_exclusion_id(21));
}

#[test]
fn ledger_drops_entries_by_parent_and_by_record() {
    let mut ledger = ExclusionLedger::new();
    ledger.exclude(1, Receipt::with_id(20, "a".to_string(), 1, true));
    ledger.exclude(2, Receipt::with_id(21, "b".to_string(), 2, true));
    ledger.exclude(3, Receipt::with_id(21, "b".to_string(), 2, true));
    assert_eq!(ledger.parent_of(20), Some(1));
    assert_eq!(ledger.parent_of(21), Some(2));
    assert!(ledger.remove_parent(1));
    assert!(!ledger.remove_parent(1));
    assert_eq!(ledger.parent_of(20), None);
    assert_eq!(ledger.exclusion_amount(1), 0);
    assert_eq!(ledger.exclusion_amount(2), 2);
    assert!(ledger.remove_by_exclusion_id(21));
    assert_eq!(ledger.exclusion_amount(2), 0);
    assert_eq!(ledger.exclusion_amount(3), 0);
}
