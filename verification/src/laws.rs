//! What holds of the ledger as a whole, proved from the definitions.

use crate::assignment::{assigned, lemma_toggle_twice};
use crate::calculator::{share_rows, shares_of, SharesView};
use crate::entity::{ParticipantView, ReceiptView};
use crate::export::{
    csv_text, csv_total_line, label_width, labels_width, name_width, padded, total_width,
    totals_width, txt_item_line, txt_participant_line, txt_rule, txt_text, txt_total_line,
    widths_of,
};
use crate::money::{lemma_amount_roundtrip, money_text, money_value};
use crate::shares::{
    attributed, bucket_sum, grand_total, lemma_no_sharers, lemma_owed_across,
    lemma_participant_total, lemma_share_bounds, owed, owed_across, owed_sum, participant_total,
    share, shareable_total, sharers, total_over, BucketView, LedgerView,
};
use crate::store::{has_participant, lemma_without_participant};
use crate::transitions::{assignment_toggled, consistent, participant_removed, with_exclusion};
use vstd::prelude::*;
use vstd::string::*;

verus! {

/// An ordinary receipt of which nothing is carved out is split evenly: each
/// participant who shares in it owes its total divided by the number of
/// sharers, in whole cents, and together the sharers owe the total less the
/// cents that do not divide.
pub proof fn lemma_even_split(s: LedgerView, r: ReceiptView)
    requires
        !r.exclusion,
        !s.exclusions.contains_key(r.id),
        sharers(s, r.id) > 0,
    ensures
        share(s, r) == r.total / sharers(s, r.id),
        forall|i: int|
            0 <= i < s.participants.len() && assigned(
                s.assignments,
                (#[trigger] s.participants[i]).id,
                r.id,
            ) ==> owed(s, s.participants[i].id, r) == r.total / sharers(s, r.id),
        owed_across(s, s.participants, r) + r.total % sharers(s, r.id) == r.total,
{
    lemma_owed_across(s, s.participants, r);
    lemma_share_bounds(s, r);
}

/// Where the number of sharers divides the total, an even split leaves
/// nothing over: together the sharers owe exactly the total.
pub proof fn lemma_even_split_exact(s: LedgerView, r: ReceiptView)
    requires
        !r.exclusion,
        !s.exclusions.contains_key(r.id),
        sharers(s, r.id) > 0,
        r.total % sharers(s, r.id) == 0,
    ensures
        owed_across(s, s.participants, r) == r.total,
        sharers(s, r.id) * share(s, r) == r.total,
{
    lemma_even_split(s, r);
    lemma_owed_across(s, s.participants, r);
}

/// An exclusion reduces what of its parent is shared by its amount, and to
/// nothing if it exceeds the parent's total.
pub proof fn lemma_exclusion_reduces_total(exclusions: Map<u128, ReceiptView>, r: ReceiptView)
    requires
        !r.exclusion,
        exclusions.contains_key(r.id),
    ensures
        exclusions[r.id].total <= r.total ==> shareable_total(exclusions, r) == r.total
            - exclusions[r.id].total,
        exclusions[r.id].total > r.total ==> shareable_total(exclusions, r) == 0,
{
}

/// What a participant owes for some receipts does not depend on which
/// receipts the ledger holds besides.
proof fn lemma_owed_sum_frame(s: LedgerView, t: LedgerView, pid: u128, rs: Seq<ReceiptView>)
    requires
        s.participants == t.participants,
        s.assignments == t.assignments,
        s.exclusions == t.exclusions,
    ensures
        owed_sum(s, pid, rs) == owed_sum(t, pid, rs),
    decreases rs.len(),
{
    if rs.len() > 0 {
        lemma_owed_sum_frame(s, t, pid, rs.drop_last());
    }
}

/// Leaving one receipt out of a sum takes away what is owed for it.
proof fn lemma_owed_sum_remove(s: LedgerView, pid: u128, rs: Seq<ReceiptView>, j: int)
    requires
        0 <= j < rs.len(),
    ensures
        owed_sum(s, pid, rs.remove(j)) + owed(s, pid, rs[j]) == owed_sum(s, pid, rs),
    decreases rs.len(),
{
    if j == rs.len() - 1 {
        assert(rs.remove(j) =~= rs.drop_last());
    } else {
        lemma_owed_sum_remove(s, pid, rs.drop_last(), j);
        assert(rs.remove(j).drop_last() =~= rs.drop_last().remove(j));
        assert(rs.remove(j).last() == rs.last());
    }
}

/// The state `s` without its `j`-th receipt, all else as it is.
pub open spec fn receipt_left_out(s: LedgerView, j: int) -> LedgerView {
    LedgerView { receipts: s.receipts.remove(j), ..s }
}

/// A receipt that no participant shares contributes nothing: nobody owes
/// anything for it, and every participant's total and the grand total are
/// what they would be without it.
pub proof fn lemma_unshared_receipt(s: LedgerView, j: int)
    requires
        0 <= j < s.receipts.len(),
        forall|i: int|
            0 <= i < s.participants.len() ==> !assigned(
                s.assignments,
                #[trigger] s.participants[i].id,
                s.receipts[j].id,
            ),
    ensures
        sharers(s, s.receipts[j].id) == 0,
        attributed(s, s.receipts[j]) == 0,
        forall|pid: u128| owed(s, pid, s.receipts[j]) == 0,
        forall|pid: u128|
            participant_total(receipt_left_out(s, j), pid) == participant_total(s, pid),
        grand_total(receipt_left_out(s, j)) == grand_total(s),
{
    let t = receipt_left_out(s, j);
    lemma_no_sharers(s.participants, s.assignments, s.receipts[j].id);
    assert forall|pid: u128| participant_total(t, pid) == participant_total(s, pid) by {
        lemma_participant_total(t, pid);
        lemma_participant_total(s, pid);
        lemma_owed_sum_frame(t, s, pid, t.receipts);
        lemma_owed_sum_remove(s, pid, s.receipts, j);
    }
    lemma_total_over_left_out(s, j, s.participants);
}

/// The totals of some participants are the same with and without a receipt
/// that nobody shares.
proof fn lemma_total_over_left_out(s: LedgerView, j: int, ps: Seq<ParticipantView>)
    requires
        0 <= j < s.receipts.len(),
        sharers(s, s.receipts[j].id) == 0,
    ensures
        total_over(receipt_left_out(s, j), ps) == total_over(s, ps),
    decreases ps.len(),
{
    let t = receipt_left_out(s, j);
    if ps.len() > 0 {
        lemma_total_over_left_out(s, j, ps.drop_last());
        let pid = ps.last().id;
        lemma_participant_total(t, pid);
        lemma_participant_total(s, pid);
        lemma_owed_sum_frame(t, s, pid, t.receipts);
        lemma_owed_sum_remove(s, pid, s.receipts, j);
    }
}

/// Of two exclusions added for the same parent, the second replaces the
/// first: only the second reduces what of the parent is shared, though both
/// records stay among the receipts.
pub proof fn lemma_exclusion_overwrite(
    s: LedgerView,
    parent: ReceiptView,
    first: ReceiptView,
    second: ReceiptView,
    auto: bool,
)
    requires
        !parent.exclusion,
    ensures
        ({
            let once = with_exclusion(s, parent.id, first, auto);
            let t = with_exclusion(once, parent.id, second, auto);
            &&& t.exclusions[parent.id] == second
            &&& t.receipts.contains(first)
            &&& t.receipts.contains(second)
            &&& shareable_total(t.exclusions, parent) == if second.total <= parent.total {
                parent.total - second.total
            } else {
                0
            }
        }),
{
    let once = with_exclusion(s, parent.id, first, auto);
    let t = with_exclusion(once, parent.id, second, auto);
    let n = s.receipts.len() as int;
    assert(t.receipts[n] == first);
    assert(t.receipts[n + 1] == second);
}

/// Once a participant is removed, nothing refers to them: they share in no
/// receipt, they are not counted among any receipt's sharers, they owe
/// nothing, and no row of the share report is theirs.
pub proof fn lemma_removed_participant_is_gone(s: LedgerView, pid: u128)
    requires
        consistent(s),
    ensures
        ({
            let t = participant_removed(s, pid);
            &&& !has_participant(t.participants, pid)
            &&& !t.assignments.contains_key(pid)
            &&& forall|rid: u128| !assigned(t.assignments, pid, rid)
            &&& forall|r: ReceiptView| owed(t, pid, r) == 0
            &&& participant_total(t, pid) == 0
            &&& forall|k: int|
                0 <= k < share_rows(t).len() ==> (#[trigger] share_rows(t)[k]).id != pid
        }),
{
    let t = participant_removed(s, pid);
    lemma_without_participant(s.participants, pid);
    lemma_participant_total(t, pid);
    lemma_nothing_owed(t, pid, t.receipts);
    assert forall|k: int| 0 <= k < share_rows(t).len() implies (#[trigger] share_rows(t)[k]).id
        != pid by {
        assert(crate::entity::participant_ids(t.participants)[k] == t.participants[k].id);
    }
}

/// Who shares in nothing owes nothing.
proof fn lemma_nothing_owed(s: LedgerView, pid: u128, rs: Seq<ReceiptView>)
    requires
        forall|rid: u128| !assigned(s.assignments, pid, rid),
    ensures
        owed_sum(s, pid, rs) == 0,
    decreases rs.len(),
{
    if rs.len() > 0 {
        lemma_nothing_owed(s, pid, rs.drop_last());
    }
}

/// The totals of the rows `rows` of a share report together.
pub open spec fn rows_total(rows: Seq<SharesView>) -> nat
    decreases rows.len(),
{
    if rows.len() == 0 {
        0
    } else {
        rows_total(rows.drop_last()) + rows.last().total
    }
}

/// The totals of the first rows of the share report are those of the first
/// participants.
proof fn lemma_rows_total(s: LedgerView, n: int)
    requires
        0 <= n <= s.participants.len(),
    ensures
        rows_total(share_rows(s).take(n)) == total_over(s, s.participants.take(n)),
    decreases n,
{
    if n > 0 {
        lemma_rows_total(s, n - 1);
        assert(share_rows(s).take(n).drop_last() =~= share_rows(s).take(n - 1));
        assert(s.participants.take(n).drop_last() =~= s.participants.take(n - 1));
        assert(share_rows(s).take(n).last() == shares_of(s, s.participants[n - 1]));
        assert(s.participants.take(n).last() == s.participants[n - 1]);
    }
}

/// In both exports the last line holds the grand total, which can be read
/// back from it; every participant's row holds the sum of their breakdown;
/// and the totals of all rows together are the grand total.
pub proof fn lemma_export_totals(s: LedgerView)
    ensures
        ({
            let rows = share_rows(s);
            let grand = grand_total(s);
            let csv = csv_text(rows, grand);
            let txt = txt_text(rows, grand);
            let csv_last = csv_total_line(grand);
            let txt_last = txt_total_line(widths_of(rows, grand), grand);
            &&& csv.len() >= csv_last.len()
            &&& csv.subrange(csv.len() - csv_last.len(), csv.len() as int) == csv_last
            &&& csv_last.len() >= 7
            &&& money_value(csv_last.subrange(6, csv_last.len() - 1)) == grand
            &&& txt.len() >= txt_last.len()
            &&& txt.subrange(txt.len() - txt_last.len(), txt.len() as int) == txt_last
            &&& rows_total(rows) == grand
            &&& forall|k: int|
                0 <= k < rows.len() ==> (#[trigger] rows[k]).total == bucket_sum(rows[k].items)
        }),
{
    let rows = share_rows(s);
    let grand = grand_total(s);
    let csv = csv_text(rows, grand);
    let txt = txt_text(rows, grand);
    let csv_last = csv_total_line(grand);
    let txt_last = txt_total_line(widths_of(rows, grand), grand);
    assert(csv.subrange(csv.len() - csv_last.len(), csv.len() as int) =~= csv_last);
    reveal_strlit("Total,");
    reveal_strlit(",");
    lemma_amount_roundtrip(grand);
    assert(csv_last.subrange(6, csv_last.len() - 1) =~= money_text(grand));
    assert(txt.subrange(txt.len() - txt_last.len(), txt.len() as int) =~= txt_last);
    lemma_rows_total(s, s.participants.len() as int);
    assert(share_rows(s).take(s.participants.len() as int) =~= share_rows(s));
    assert(s.participants.take(s.participants.len() as int) =~= s.participants);
}

/// Toggling the same assignment twice leaves the ledger as it was.
pub proof fn lemma_toggle_twice_restores(s: LedgerView, pid: u128, rid: u128)
    ensures
        assignment_toggled(assignment_toggled(s, pid, rid), pid, rid) == s,
{
    lemma_toggle_twice(s.assignments, pid, rid);
}

/// The name column is at least 5 wide and wide enough for every name.
pub proof fn lemma_name_width(rows: Seq<SharesView>, k: int)
    requires
        0 <= k < rows.len(),
    ensures
        name_width(rows) >= 5,
        name_width(rows) >= rows[k].name.len(),
    decreases rows.len(),
{
    if k < rows.len() - 1 {
        lemma_name_width(rows.drop_last(), k);
    } else {
        lemma_name_floor(rows.drop_last());
    }
}

/// The name column is at least 5 wide.
proof fn lemma_name_floor(rows: Seq<SharesView>)
    ensures
        name_width(rows) >= 5,
    decreases rows.len(),
{
    if rows.len() > 0 {
        lemma_name_floor(rows.drop_last());
    }
}

/// The total column is at least 5 wide and wide enough for the grand total
/// and for every participant's total.
pub proof fn lemma_total_width(rows: Seq<SharesView>, grand: nat, k: int)
    requires
        0 <= k < rows.len(),
    ensures
        total_width(rows, grand) >= 5,
        total_width(rows, grand) >= money_text(grand).len(),
        total_width(rows, grand) >= money_text(rows[k].total).len(),
    decreases rows.len(),
{
    if k < rows.len() - 1 {
        lemma_total_width(rows.drop_last(), grand, k);
    } else {
        lemma_totals_floor(rows.drop_last());
    }
}

/// The participants' totals need a width of 5 at least.
proof fn lemma_totals_floor(rows: Seq<SharesView>)
    ensures
        totals_width(rows) >= 5,
    decreases rows.len(),
{
    if rows.len() > 0 {
        lemma_totals_floor(rows.drop_last());
    }
}

/// The labels of a breakdown fit in the width that they need.
proof fn lemma_labels_width(items: Seq<BucketView>, floor: nat, j: int)
    requires
        0 <= j <= items.len(),
    ensures
        labels_width(items, floor) >= floor,
        j < items.len() ==> labels_width(items, floor) >= items[j].label.len(),
    decreases items.len(),
{
    if items.len() > 0 {
        if j < items.len() - 1 {
            lemma_labels_width(items.drop_last(), floor, j);
        } else {
            lemma_labels_width(items.drop_last(), floor, 0);
        }
    }
}

/// The receipt column is at least 7 wide and wide enough for every label.
pub proof fn lemma_label_width(rows: Seq<SharesView>, k: int, j: int)
    requires
        0 <= k < rows.len(),
        0 <= j < rows[k].items.len(),
    ensures
        label_width(rows) >= 7,
        label_width(rows) >= rows[k].items[j].label.len(),
    decreases rows.len(),
{
    let floor = label_width(rows.drop_last());
    if k < rows.len() - 1 {
        lemma_label_width(rows.drop_last(), k, j);
        lemma_labels_width(rows.last().items, floor, 0);
    } else {
        lemma_label_floor(rows.drop_last());
        lemma_labels_width(rows.last().items, floor, j);
    }
}

/// The receipt column is at least 7 wide.
proof fn lemma_label_floor(rows: Seq<SharesView>)
    ensures
        label_width(rows) >= 7,
    decreases rows.len(),
{
    if rows.len() > 0 {
        lemma_label_floor(rows.drop_last());
        lemma_labels_width(rows.last().items, label_width(rows.drop_last()), 0);
    }
}

/// A text that fits its column fills it exactly once it is padded.
pub proof fn lemma_padded_fills(text: Seq<char>, width: nat)
    requires
        text.len() <= width,
    ensures
        padded(text, width).len() == width,
        padded(text, width).subrange(0, text.len() as int) == text,
{
    assert(padded(text, width).subrange(0, text.len() as int) =~= text);
}

/// The lines of a text report are aligned: the line of every participant
/// and of every entry of a breakdown is as long as the three columns and
/// the two gaps between them, and so is the rule.
pub proof fn lemma_txt_lines_aligned(rows: Seq<SharesView>, grand: nat, k: int, j: int)
    requires
        0 <= k < rows.len(),
        0 <= j < rows[k].items.len(),
    ensures
        ({
            let w = widths_of(rows, grand);
            let line = w.name + 3 + w.total + 3 + w.label;
            &&& txt_rule(w).len() == line + 1
            &&& txt_participant_line(w, rows[k]).len() == line + 1
            &&& txt_item_line(w, rows[k].items[j]).len() == line + 1
            &&& txt_total_line(w, grand).len() == line
        }),
{
    let w = widths_of(rows, grand);
    reveal_strlit("   ");
    reveal_strlit(" > ");
    reveal_strlit("\n");
    reveal_strlit("Total");
    lemma_name_width(rows, k);
    lemma_total_width(rows, grand, k);
    lemma_label_width(rows, k, j);
    lemma_padded_fills(rows[k].name, w.name);
    lemma_padded_fills(money_text(rows[k].total), w.total);
    lemma_padded_fills(money_text(grand), w.total);
    lemma_padded_fills(rows[k].items[j].label, w.label);
    lemma_padded_fills(Seq::empty(), w.name);
    lemma_padded_fills(Seq::empty(), w.total);
    lemma_padded_fills(Seq::empty(), w.label);
    lemma_padded_fills("Total"@, w.name);
}

} // verus!
