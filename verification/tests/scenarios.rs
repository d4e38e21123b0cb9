use split_ledger::{LedgerError, Participant, State};

fn groceries() -> State {
    let mut state = State::new();
    state.insert_receipt(1, "Groceries".to_string(), 6000).unwrap();
    state.insert_exclusion(1, 2, "Snacks".to_string(), 1000).unwrap();
    state.insert_participant(Participant::with_id(10, "Alice".to_string())).unwrap();
    state.insert_participant(Participant::with_id(11, "Bob".to_string())).unwrap();
    state
}

#[test]
fn groceries_with_snacks_excluded() {
    let state = groceries();
    assert_eq!(state.receipts()[0].total(&state), 5000);
    assert_eq!(state.participants()[0].share(&state), 2500);
    assert_eq!(state.participants()[1].share(&state), 2500);
    assert_eq!(state.total(), 5000);
}

#[test]
fn groceries_share_map() {
    let state = groceries();
    let rows = state.share_map();
    assert_eq!(rows.len(), 2);
    assert_eq!(rows[0].id, 10);
    assert_eq!(rows[0].name, "Alice");
    assert_eq!(rows[0].total, 2500);
    assert_eq!(rows[0].items.len(), 1);
    assert_eq!(rows[0].items[0].label, "Groceries");
    assert_eq!(rows[0].items[0].amount, 2500);
    assert_eq!(rows[1].id, 11);
    assert_eq!(rows[1].name, "Bob");
    assert_eq!(rows[1].total, 2500);
}

#[test]
fn groceries_csv() {
    let state = groceries();
    assert_eq!(
        state.export_csv(),
        "Name,Total,Receipt\n\
         Alice,25.00€,\n\
         ,25.00€,Groceries\n\
         Bob,25.00€,\n\
         ,25.00€,Groceries\n\
         Total,50.00€,"
    );
}

#[test]
fn groceries_txt() {
    let state = groceries();
    let expected = [
        "Name    Total    Receipt  ",
        "--------------------------",
        "Alice   25.00€            ",
        "      >          Groceries",
        "Bob     25.00€            ",
        "      >          Groceries",
        "--------------------------",
        "Total   50.00€            ",
    ]
    .join("\n");
    assert_eq!(state.export_txt(), expected);
}

#[test]
fn exclusion_record_is_listed_but_never_shared() {
    let state = groceries();
    assert_eq!(state.receipts().len(), 2);
    assert!(state.receipts()[1].exclusion);
    assert_eq!(state.receipts()[1].total(&state), 1000);
    assert!(state.is_assigned(10, 2));
    let rows = state.share_map();
    assert!(rows.iter().all(|row| row.items.iter().all(|item| item.label != "Snacks")));
}

#[test]
fn unknown_ids_are_reported_and_change_nothing() {
    let mut state = groceries();
    let before = state.export_csv();
    assert_eq!(state.remove_participant(99), Err(LedgerError::UnknownParticipant));
    assert_eq!(state.remove_receipt(99), Err(LedgerError::UnknownReceipt));
    assert_eq!(state.toggle(99, 1), Err(LedgerError::UnknownParticipant));
    assert_eq!(state.toggle(10, 99), Err(LedgerError::UnknownReceipt));
    assert_eq!(
        state.insert_exclusion(99, 3, "x".to_string(), 1),
        Err(LedgerError::UnknownReceipt)
    );
    assert_eq!(
        state.insert_exclusion(2, 3, "x".to_string(), 1),
        Err(LedgerError::ParentIsExclusion)
    );
    assert_eq!(
        state.insert_exclusion(1, 2, "x".to_string(), 1),
        Err(LedgerError::DuplicateId)
    );
    assert_eq!(state.insert_receipt(1, "again".to_string(), 1), Err(LedgerError::DuplicateId));
    assert_eq!(
        state.insert_participant(Participant::with_id(10, "Twin".to_string())),
        Err(LedgerError::DuplicateId)
    );
    assert_eq!(state.export_csv(), before);
    assert_eq!(state.participants().len(), 2);
    assert_eq!(state.receipts().len(), 2);
}
