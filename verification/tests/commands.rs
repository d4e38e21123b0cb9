use split_ledger::{LedgerError, Participant, State};

fn has_random_uuid_bits(id: u128) -> bool {
    (id >> 76) & 0xf == 4 && (id >> 62) & 0x3 == 2
}

#[test]
fn new_ledger_is_empty() {
    let state = State::new();
    assert!(state.participants().is_empty());
    assert!(state.receipts().is_empty());
    assert!(!state.auto_assign());
    assert_eq!(state.total(), 0);
    assert_eq!(state.unattributed(), 0);
    assert!(state.share_map().is_empty());
}

#[test]
fn new_participant_shares_in_every_existing_receipt() {
    let mut state = State::new();
    state.insert_receipt(10, "a".to_string(), 100).unwrap();
    state.insert_receipt(11, "b".to_string(), 200).unwrap();
    state.insert_participant(Participant::with_id(1, "p".to_string())).unwrap();
    assert!(state.is_assigned(1, 10));
    assert!(state.is_assigned(1, 11));
    assert!(!state.is_assigned(1, 12));
    assert_eq!(state.participants()[0].share(&state), 300);
}

#[test]
fn later_receipt_is_shared_by_nobody_unless_auto_assign_is_on() {
    let mut state = State::new();
    state.insert_participant(Participant::with_id(1, "p".to_string())).unwrap();
    state.insert_participant(Participant::with_id(2, "q".to_string())).unwrap();
    state.insert_receipt(10, "off".to_string(), 100).unwrap();
    assert!(!state.is_assigned(1, 10));
    assert!(!state.is_assigned(2, 10));
    state.set_auto_assign(true);
    assert!(state.auto_assign());
    assert!(!state.is_assigned(1, 10));
    state.insert_receipt(11, "on".to_string(), 100).unwrap();
    assert!(state.is_assigned(1, 11));
    assert!(state.is_assigned(2, 11));
    state.insert_exclusion(11, 12, "cut".to_string(), 10).unwrap();
    assert!(state.is_assigned(1, 12));
    assert!(state.is_assigned(2, 12));
    state.set_auto_assign(false);
    assert!(!state.auto_assign());
    state.insert_exclusion(11, 13, "cut".to_string(), 10).unwrap();
    assert!(!state.is_assigned(1, 13));
    assert_eq!(state.total(), 90);
}

#[test]
fn toggle_twice_changes_nothing() {
    let mut state = State::new();
    state.insert_receipt(10, "a".to_string(), 100).unwrap();
    state.insert_participant(Participant::with_id(1, "p".to_string())).unwrap();
    let before = state.export_txt();
    assert_eq!(state.toggle(1, 10), Ok(()));
    assert!(!state.is_assigned(1, 10));
    assert_ne!(state.export_txt(), before);
    assert_eq!(state.toggle(1, 10), Ok(()));
    assert!(state.is_assigned(1, 10));
    assert_eq!(state.export_txt(), before);
}

#[test]
fn second_exclusion_replaces_the_first() {
    let mut state = State::new();
    state.insert_receipt(10, "bill".to_string(), 1000).unwrap();
    state.insert_participant(Participant::with_id(1, "p".to_string())).unwrap();
    state.insert_exclusion(10, 11, "first".to_string(), 300).unwrap();
    assert_eq!(state.receipts()[0].total(&state), 700);
    state.insert_exclusion(10, 12, "second".to_string(), 100).unwrap();
    assert_eq!(state.receipts()[0].total(&state), 900);
    assert_eq!(state.exclusions_of(10), vec![("second".to_string(), 100)]);
    let labels: Vec<&str> = state.receipts().iter().map(|r| r.label.as_str()).collect();
    assert_eq!(labels, vec!["bill", "first", "second"]);
    assert_eq!(state.total(), 900);
}

#[test]
fn removing_the_replaced_exclusion_changes_no_total() {
    let mut state = State::new();
    state.insert_receipt(10, "bill".to_string(), 1000).unwrap();
    state.insert_exclusion(10, 11, "first".to_string(), 300).unwrap();
    state.insert_exclusion(10, 12, "second".to_string(), 100).unwrap();
    assert_eq!(state.remove_receipt(11), Ok(()));
    assert_eq!(state.receipts()[0].total(&state), 900);
    assert_eq!(state.receipts().len(), 2);
}

#[test]
fn removing_the_active_exclusion_restores_the_parent() {
    let mut state = State::new();
    state.insert_receipt(10, "bill".to_string(), 1000).unwrap();
    state.insert_exclusion(10, 11, "first".to_string(), 300).unwrap();
    state.insert_exclusion(10, 12, "second".to_string(), 100).unwrap();
    assert_eq!(state.remove_receipt(12), Ok(()));
    assert_eq!(state.receipts()[0].total(&state), 1000);
    assert_eq!(state.exclusions_of(10), vec![]);
    let labels: Vec<&str> = state.receipts().iter().map(|r| r.label.as_str()).collect();
    assert_eq!(labels, vec!["bill", "first"]);
}

#[test]
fn removing_a_parent_drops_its_exclusion_entry_but_keeps_the_record() {
    let mut state = State::new();
    state.insert_receipt(10, "bill".to_string(), 1000).unwrap();
    state.insert_exclusion(10, 11, "cut".to_string(), 300).unwrap();
    assert_eq!(state.remove_receipt(10), Ok(()));
    assert_eq!(state.receipts().len(), 1);
    assert_eq!(state.receipts()[0].id, 11);
    assert_eq!(state.exclusions_of(10), vec![]);
    state.insert_receipt(10, "again".to_string(), 1000).unwrap();
    assert_eq!(state.receipts()[1].total(&state), 1000);
}

#[test]
fn removing_a_receipt_takes_it_out_of_every_assignment() {
    let mut state = State::new();
    state.insert_receipt(10, "a".to_string(), 100).unwrap();
    state.insert_receipt(11, "b".to_string(), 200).unwrap();
    state.insert_participant(Participant::with_id(1, "p".to_string())).unwrap();
    state.insert_participant(Participant::with_id(2, "q".to_string())).unwrap();
    assert_eq!(state.remove_receipt(10), Ok(()));
    assert!(!state.is_assigned(1, 10));
    assert!(!state.is_assigned(2, 10));
    assert!(state.is_assigned(1, 11));
    state.insert_receipt(10, "a again".to_string(), 100).unwrap();
    assert!(!state.is_assigned(1, 10));
    assert_eq!(state.total(), 200);
}

#[test]
fn removing_a_participant_removes_every_trace() {
    let mut state = State::new();
    state.insert_receipt(10, "a".to_string(), 900).unwrap();
    for (id, name) in [(1, "p"), (2, "q"), (3, "r")] {
        state.insert_participant(Participant::with_id(id, name.to_string())).unwrap();
    }
    assert_eq!(state.participants()[0].share(&state), 300);
    assert_eq!(state.remove_participant(2), Ok(()));
    assert!(!state.is_assigned(2, 10));
    let rows = state.share_map();
    assert_eq!(rows.iter().map(|row| row.id).collect::<Vec<u128>>(), vec![1, 3]);
    assert!(rows.iter().all(|row| row.total == 450));
    assert!(!state.export_csv().contains("q,"));
    assert_eq!(state.toggle(2, 10), Err(LedgerError::UnknownParticipant));
    state.insert_participant(Participant::with_id(2, "q".to_string())).unwrap();
    assert!(state.is_assigned(2, 10));
}

#[test]
fn commands_draw_identifiers() {
    let mut state = State::new();
    let bill = state.add_receipt("Sello".to_string(), 6999).unwrap();
    let item = state.add_exclusion(bill, "item".to_string(), 299).unwrap();
    let matti = state.add_participant("Matti".to_string()).unwrap();
    assert!(has_random_uuid_bits(bill) && has_random_uuid_bits(item) && has_random_uuid_bits(matti));
    assert_ne!(bill, item);
    assert_eq!(state.receipts()[0].id, bill);
    assert_eq!(state.receipts()[1].id, item);
    assert!(state.receipts()[1].exclusion);
    assert_eq!(state.participants()[0].id, matti);
    assert!(state.is_assigned(matti, bill));
    assert_eq!(state.participants()[0].share(&state), 6700);
    assert_eq!(state.add_exclusion(item, "x".to_string(), 1), Err(LedgerError::ParentIsExclusion));
    assert_eq!(state.add_exclusion(12345, "x".to_string(), 1), Err(LedgerError::UnknownReceipt));
}

#[test]
fn default_values_are_empty() {
    let state = State::default();
    assert!(state.participants().is_empty());
    assert!(state.receipts().is_empty());
    assert!(!state.auto_assign());
    assert_eq!(state.export_csv(), State::new().export_csv());
    let p = Participant::default();
    assert_eq!((p.id, p.name.as_str()), (0, ""));
    let r = split_ledger::Receipt::default();
    assert_eq!((r.id, r.label.as_str(), r.total, r.exclusion), (0, "", 0, false));
}

#[test]
fn sharing_in_an_exclusion_record_costs_nothing() {
    let mut state = State::new();
    state.insert_receipt(10, "bill".to_string(), 1000).unwrap();
    state.insert_exclusion(10, 11, "cut".to_string(), 400).unwrap();
    state.insert_participant(Participant::with_id(1, "p".to_string())).unwrap();
    assert!(state.is_assigned(1, 11));
    assert_eq!(state.total(), 600);
    assert_eq!(state.toggle(1, 11), Ok(()));
    assert!(!state.is_assigned(1, 11));
    assert_eq!(state.total(), 600);
    assert_eq!(state.unattributed(), 0);
}

#[test]
fn what_is_shared_and_what_is_not_make_up_the_receipts() {
    let mut state = State::new();
    state.insert_receipt(10, "a".to_string(), 1000).unwrap();
    state.insert_receipt(11, "b".to_string(), 101).unwrap();
    state.insert_receipt(12, "c".to_string(), 50).unwrap();
    state.insert_exclusion(10, 13, "cut".to_string(), 1).unwrap();
    for (id, name) in [(1, "p"), (2, "q"), (3, "r")] {
        state.insert_participant(Participant::with_id(id, name.to_string())).unwrap();
    }
    for id in [1, 2, 3] {
        state.toggle(id, 12).unwrap();
    }
    state.toggle(3, 11).unwrap();
    assert_eq!(state.total(), 999 + 100);
    assert_eq!(state.unattributed(), 0 + 1 + 50);
    assert_eq!(state.total() + state.unattributed(), 999 + 101 + 50);
}
