use split_ledger::assignment::AssignmentTable;
use split_ledger::calculator;
use split_ledger::exclusion::ExclusionLedger;
use split_ledger::store::EntityStore;
use split_ledger::{Bucket, Participant, Receipt, State};

fn state_with(people: &[(u128, &str)], receipts: &[(u128, &str, u64)]) -> State {
    let mut state = State::new();
    for (id, label, total) in receipts {
        state.insert_receipt(*id, label.to_string(), *total).unwrap();
    }
    for (id, name) in people {
        state.insert_participant(Participant::with_id(*id, name.to_string())).unwrap();
    }
    state
}

#[test]
fn even_split_among_three() {
    let state = state_with(&[(1, "a"), (2, "b"), (3, "c")], &[(10, "dinner", 9000)]);
    for p in state.participants() {
        assert_eq!(p.share(&state), 3000);
    }
    assert_eq!(state.total(), 9000);
    assert_eq!(state.unattributed(), 0);
}

#[test]
fn uneven_split_leaves_the_odd_cents_with_nobody() {
    let state = state_with(&[(1, "a"), (2, "b"), (3, "c")], &[(10, "taxi", 100)]);
    for p in state.participants() {
        assert_eq!(p.share(&state), 33);
    }
    assert_eq!(state.total(), 99);
    assert_eq!(state.unattributed(), 1);
}

#[test]
fn single_sharer_owes_everything() {
    let mut state = state_with(&[(1, "a"), (2, "b")], &[(10, "book", 1999)]);
    state.toggle(2, 10).unwrap();
    assert_eq!(state.participants()[0].share(&state), 1999);
    assert_eq!(state.participants()[1].share(&state), 0);
    assert_eq!(state.total(), 1999);
}

#[test]
fn exclusion_reduces_the_shareable_total() {
    let mut state = state_with(&[(1, "a")], &[(10, "bill", 6999)]);
    state.insert_exclusion(10, 11, "item".to_string(), 299).unwrap();
    assert_eq!(state.receipts()[0].total(&state), 6700);
    assert_eq!(state.receipts()[1].total(&state), 299);
    assert_eq!(state.total(), 6700);
    assert_eq!(state.exclusions_of(10), vec![("item".to_string(), 299)]);
    assert_eq!(state.exclusions_of(11), vec![]);
}

#[test]
fn exclusion_equal_to_the_total_leaves_nothing() {
    let mut state = state_with(&[(1, "a")], &[(10, "bill", 500)]);
    state.insert_exclusion(10, 11, "all".to_string(), 500).unwrap();
    assert_eq!(state.receipts()[0].total(&state), 0);
    assert_eq!(state.total(), 0);
}

#[test]
fn exclusion_above_the_total_floors_at_zero() {
    let mut state = state_with(&[(1, "a")], &[(10, "bill", 500)]);
    state.insert_exclusion(10, 11, "more".to_string(), 501).unwrap();
    assert_eq!(state.receipts()[0].total(&state), 0);
    assert_eq!(state.participants()[0].share(&state), 0);
    assert_eq!(state.total(), 0);
    assert_eq!(state.unattributed(), 0);
}

#[test]
fn unshared_receipt_contributes_nothing() {
    let mut state = state_with(&[(1, "a"), (2, "b")], &[(10, "shared", 1000)]);
    let before: Vec<u128> = state.participants().iter().map(|p| p.share(&state)).collect();
    let total = state.total();
    state.insert_receipt(11, "orphan".to_string(), 777).unwrap();
    assert!(!state.is_assigned(1, 11));
    assert!(!state.is_assigned(2, 11));
    let after: Vec<u128> = state.participants().iter().map(|p| p.share(&state)).collect();
    assert_eq!(before, vec![500, 500]);
    assert_eq!(after, before);
    assert_eq!(state.total(), total);
    assert_eq!(state.unattributed(), 777);
    for row in state.share_map() {
        assert!(row.items.iter().all(|item| item.label != "orphan"));
    }
}

#[test]
fn receipts_of_one_label_fall_into_one_bucket() {
    let state = state_with(
        &[(1, "a"), (2, "b")],
        &[(10, "lunch", 1000), (11, "fuel", 4000), (12, "lunch", 600)],
    );
    let rows = state.share_map();
    assert_eq!(rows.len(), 2);
    for row in &rows {
        let items: Vec<(&str, u128)> =
            row.items.iter().map(|item| (item.label.as_str(), item.amount)).collect();
        assert_eq!(items, vec![("lunch", 800), ("fuel", 2000)]);
        assert_eq!(row.total, 2800);
    }
    assert_eq!(state.total(), 5600);
}

#[test]
fn participants_of_one_name_keep_their_own_rows() {
    let mut state = state_with(&[(1, "Matti"), (2, "Matti")], &[(10, "a", 1000), (11, "b", 500)]);
    state.toggle(2, 11).unwrap();
    let rows = state.share_map();
    assert_eq!(rows.len(), 2);
    assert_eq!((rows[0].id, rows[0].name.as_str(), rows[0].total), (1, "Matti", 1000));
    assert_eq!((rows[1].id, rows[1].name.as_str(), rows[1].total), (2, "Matti", 500));
}

#[test]
fn participant_without_receipts_has_an_empty_row() {
    let mut state = state_with(&[(1, "a")], &[]);
    state.insert_receipt(10, "later".to_string(), 100).unwrap();
    let rows = state.share_map();
    assert_eq!(rows.len(), 1);
    assert_eq!(rows[0].total, 0);
    assert!(rows[0].items.is_empty());
    assert_eq!(state.total(), 0);
}

#[test]
fn totals_of_the_rows_make_the_grand_total() {
    let mut state = state_with(
        &[(1, "a"), (2, "b"), (3, "c")],
        &[(10, "x", 1001), (11, "y", 250), (12, "z", 99)],
    );
    state.toggle(1, 11).unwrap();
    state.toggle(2, 12).unwrap();
    state.toggle(3, 12).unwrap();
    state.insert_exclusion(10, 13, "cut".to_string(), 2).unwrap();
    let rows = state.share_map();
    let sum: u128 = rows.iter().map(|row| row.total).sum();
    assert_eq!(sum, state.total());
    for row in &rows {
        let items: u128 = row.items.iter().map(|item| item.amount).sum();
        assert_eq!(items, row.total);
    }
    assert_eq!(rows[0].total, 333 + 99);
    assert_eq!(rows[1].total, 333 + 125);
    assert_eq!(rows[2].total, 333 + 125);
    assert_eq!(state.total(), 999 + 250 + 99);
    assert_eq!(state.unattributed(), 0);
    assert_eq!(state.total() + state.unattributed(), 999 + 250 + 99);
}

#[test]
fn largest_totals_do_not_overflow() {
    let state = state_with(&[(1, "a")], &[(10, "x", u64::MAX), (11, "x", u64::MAX)]);
    assert_eq!(state.participants()[0].share(&state), 2 * (u64::MAX as u128));
    assert_eq!(state.total(), 2 * (u64::MAX as u128));
    let rows = state.share_map();
    assert_eq!(rows[0].items.len(), 1);
    assert_eq!(rows[0].items[0].amount, 2 * (u64::MAX as u128));
}

#[test]
fn recomputation_gives_the_same_result() {
    let state = state_with(&[(1, "a"), (2, "b")], &[(10, "x", 123), (11, "y", 456)]);
    assert_eq!(state.export_csv(), state.export_csv());
    assert_eq!(state.export_txt(), state.export_txt());
    assert_eq!(state.total(), state.total());
}

#[test]
fn calculator_works_on_the_three_components() {
    let mut store = EntityStore::new();
    let mut table = AssignmentTable::new();
    let mut exclusions = ExclusionLedger::new();
    store.insert_receipt(Receipt::with_id(10, "bill".to_string(), 1000, false)).unwrap();
    store.insert_receipt(Receipt::with_id(11, "cut".to_string(), 100, true)).unwrap();
    exclusions.exclude(10, Receipt::with_id(11, "cut".to_string(), 100, true));
    for id in [1u128, 2, 3, 4] {
        store.insert_participant(Participant::with_id(id, format!("p{id}"))).unwrap();
        table.set_default_assignment(id, &vec![10, 11]);
    }
    table.toggle(4, 10);
    let bill = &store.receipts()[0];
    let cut = &store.receipts()[1];
    assert_eq!(calculator::shareable_total(bill, &exclusions), 900);
    assert_eq!(calculator::shareable_total(cut, &exclusions), 100);
    assert_eq!(calculator::count_sharers(store.participants(), &table, 10), 3);
    assert_eq!(calculator::count_sharers(store.participants(), &table, 11), 4);
    assert_eq!(calculator::count_sharers(store.participants(), &table, 12), 0);
    assert_eq!(calculator::receipt_share(&store, &table, &exclusions, bill), 300);
    assert_eq!(calculator::receipt_share(&store, &table, &exclusions, cut), 0);
    assert_eq!(calculator::receipt_shares(&store, &table, &exclusions), vec![300, 0]);
    assert_eq!(calculator::participant_share(&store, &table, &exclusions, 1), 300);
    assert_eq!(calculator::participant_share(&store, &table, &exclusions, 4), 0);
    assert_eq!(calculator::participant_share(&store, &table, &exclusions, 99), 0);
    assert_eq!(calculator::grand_total(&store, &table, &exclusions), 900);
    assert_eq!(calculator::unattributed_total(&store, &table, &exclusions), 0);
    let items = calculator::breakdown_of(&store, &table, &exclusions, 2);
    assert_eq!(items.len(), 1);
    assert_eq!((items[0].label.as_str(), items[0].amount), ("bill", 300));
    assert!(calculator::breakdown_of(&store, &table, &exclusions, 4).is_empty());
}

#[test]
fn crediting_adds_to_the_bucket_of_the_label() {
    let mut buckets: Vec<Bucket> = Vec::new();
    calculator::credit(&mut buckets, &"a".to_string(), 5);
    calculator::credit(&mut buckets, &"b".to_string(), 7);
    calculator::credit(&mut buckets, &"a".to_string(), 11);
    calculator::credit(&mut buckets, &"c".to_string(), 0);
    let seen: Vec<(&str, u128)> = buckets.iter().map(|b| (b.label.as_str(), b.amount)).collect();
    assert_eq!(seen, vec![("a", 16), ("b", 7), ("c", 0)]);
}
