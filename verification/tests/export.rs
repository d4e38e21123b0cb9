use split_ledger::export::{export_csv, export_txt};
use split_ledger::{Bucket, Participant, ParticipantShares, State};

#[test]
fn empty_ledger_as_csv() {
    assert_eq!(State::new().export_csv(), "Name,Total,Receipt\nTotal,0.00€,");
}

#[test]
fn empty_ledger_as_text() {
    let expected = [
        "Name    Total   Receipt",
        "-----------------------",
        "-----------------------",
        "Total   0.00€          ",
    ]
    .join("\n");
    assert_eq!(State::new().export_txt(), expected);
}

#[test]
fn columns_grow_with_their_longest_cell() {
    let mut state = State::new();
    state.insert_receipt(1, "Midsummer cottage".to_string(), 123456789).unwrap();
    state.insert_receipt(2, "Gas".to_string(), 1).unwrap();
    state.insert_participant(Participant::with_id(1, "Väinämöinen".to_string())).unwrap();
    state.insert_participant(Participant::with_id(2, "Al".to_string())).unwrap();
    state.toggle(2, 1).unwrap();
    let expected = [
        "Name          Total         Receipt          ",
        "---------------------------------------------",
        "Väinämöinen   1234567.89€                    ",
        "            >               Midsummer cottage",
        "            >               Gas              ",
        "Al            0.00€                          ",
        "            >               Gas              ",
        "---------------------------------------------",
        "Total         1234567.89€                    ",
    ]
    .join("\n");
    let text = state.export_txt();
    assert_eq!(text, expected);
    let widths: Vec<usize> = text.lines().map(|line| line.chars().count()).collect();
    assert!(widths.iter().all(|w| *w == 11 + 3 + 11 + 3 + 17));
}

#[test]
fn csv_lists_every_participant_with_their_breakdown() {
    let mut state = State::new();
    state.insert_receipt(1, "Rent".to_string(), 100000).unwrap();
    state.insert_receipt(2, "Power".to_string(), 4501).unwrap();
    state.insert_participant(Participant::with_id(1, "Aino".to_string())).unwrap();
    state.insert_participant(Participant::with_id(2, "Eero".to_string())).unwrap();
    state.insert_participant(Participant::with_id(3, "Guest".to_string())).unwrap();
    state.toggle(3, 1).unwrap();
    state.toggle(3, 2).unwrap();
    assert_eq!(
        state.export_csv(),
        "Name,Total,Receipt\n\
         Aino,522.50€,\n\
         ,500.00€,Rent\n\
         ,22.50€,Power\n\
         Eero,522.50€,\n\
         ,500.00€,Rent\n\
         ,22.50€,Power\n\
         Guest,0.00€,\n\
         Total,1045.00€,"
    );
    assert_eq!(state.unattributed(), 1);
}

#[test]
fn total_line_of_both_exports_holds_the_grand_total() {
    let mut state = State::new();
    state.insert_receipt(1, "a".to_string(), 1999).unwrap();
    state.insert_receipt(2, "b".to_string(), 501).unwrap();
    state.insert_participant(Participant::with_id(1, "p".to_string())).unwrap();
    state.insert_participant(Participant::with_id(2, "q".to_string())).unwrap();
    let grand = split_ledger::money::format_money(state.total());
    assert_eq!(grand, "24.98€");
    assert_eq!(state.unattributed(), 2);
    let csv = state.export_csv();
    assert_eq!(csv.lines().last().unwrap(), format!("Total,{grand},"));
    let txt = state.export_txt();
    let last = txt.lines().last().unwrap();
    assert_eq!(last, "Total   24.98€          ");
    let lines: Vec<&str> = csv.lines().collect();
    let mut sum: u128 = 0;
    for line in &lines[1..lines.len() - 1] {
        let cells: Vec<&str> = line.split(',').collect();
        if !cells[0].is_empty() {
            let amount = cells[1].trim_end_matches('€').replace('.', "");
            sum += amount.parse::<u128>().unwrap();
        }
    }
    assert_eq!(sum, state.total());
}

#[test]
fn exporter_renders_the_rows_it_is_given() {
    let rows = vec![ParticipantShares {
        id: 1,
        name: "Solo".to_string(),
        total: 1250,
        items: vec![
            Bucket { label: "Tea".to_string(), amount: 250 },
            Bucket { label: "Cake".to_string(), amount: 1000 },
        ],
    }];
    assert_eq!(
        export_csv(&rows, 1250),
        "Name,Total,Receipt\nSolo,12.50€,\n,2.50€,Tea\n,10.00€,Cake\nTotal,12.50€,"
    );
    let expected = [
        "Name    Total    Receipt",
        "------------------------",
        "Solo    12.50€          ",
        "      >          Tea    ",
        "      >          Cake   ",
        "------------------------",
        "Total   12.50€          ",
    ]
    .join("\n");
    assert_eq!(export_txt(&rows, 1250), expected);
}
