//! The exporter: a share report as CSV and as fixed-width text.

use crate::calculator::{bucket_views, shares_views, Bucket, ParticipantShares, SharesView};
use crate::money::{format_money, money_text};
use crate::shares::BucketView;
use vstd::prelude::*;
use vstd::string::*;

verus! {

/// The line of a CSV report for a participant: name and total.
pub open spec fn csv_participant_line(row: SharesView) -> Seq<char> {
    row.name + ","@ + money_text(row.total) + ",\n"@
}

/// The line of a CSV report for one entry of a breakdown: amount and label.
pub open spec fn csv_item_line(item: BucketView) -> Seq<char> {
    ","@ + money_text(item.amount) + ","@ + item.label + "\n"@
}

/// The lines of a CSV report for the entries of a breakdown.
pub open spec fn csv_item_lines(items: Seq<BucketView>) -> Seq<char>
    decreases items.len(),
{
    if items.len() == 0 {
        Seq::empty()
    } else {
        csv_item_lines(items.drop_last()) + csv_item_line(items.last())
    }
}

/// The lines of a CSV report for one participant: the line of the
/// participant, then the lines of their breakdown.
pub open spec fn csv_block(row: SharesView) -> Seq<char> {
    csv_participant_line(row) + csv_item_lines(row.items)
}

/// The lines of a CSV report for some participants, one after the other.
pub open spec fn csv_blocks(rows: Seq<SharesView>) -> Seq<char>
    decreases rows.len(),
{
    if rows.len() == 0 {
        Seq::empty()
    } else {
        csv_blocks(rows.drop_last()) + csv_block(rows.last())
    }
}

/// The last line of a CSV report: the grand total. It has no line break.
pub open spec fn csv_total_line(grand: nat) -> Seq<char> {
    "Total,"@ + money_text(grand) + ","@
}

/// A CSV report: the header, the participants with their breakdowns, the
/// grand total.
pub open spec fn csv_text(rows: Seq<SharesView>, grand: nat) -> Seq<char> {
    "Name,Total,Receipt\n"@ + csv_blocks(rows) + csv_total_line(grand)
}

/// `n` times the character `c`.
pub open spec fn repeated(c: char, n: nat) -> Seq<char> {
    Seq::new(n, |i: int| c)
}

/// `text` filled up with spaces to `width` characters; `text` itself if it
/// is that long or longer.
pub open spec fn padded(text: Seq<char>, width: nat) -> Seq<char> {
    if text.len() >= width {
        text
    } else {
        text + repeated(' ', (width - text.len()) as nat)
    }
}

/// The larger of two numbers.
pub open spec fn larger(a: nat, b: nat) -> nat {
    if a >= b {
        a
    } else {
        b
    }
}

/// The width of the name column: that of the longest name, and 5 at least.
pub open spec fn name_width(rows: Seq<SharesView>) -> nat
    decreases rows.len(),
{
    if rows.len() == 0 {
        5
    } else {
        larger(name_width(rows.drop_last()), rows.last().name.len())
    }
}

/// The width that the participants' totals need, and 5 at least.
pub open spec fn totals_width(rows: Seq<SharesView>) -> nat
    decreases rows.len(),
{
    if rows.len() == 0 {
        5
    } else {
        larger(totals_width(rows.drop_last()), money_text(rows.last().total).len())
    }
}

/// The width of the total column: that of the longest amount in it, the
/// grand total included, and 5 at least.
pub open spec fn total_width(rows: Seq<SharesView>, grand: nat) -> nat {
    larger(totals_width(rows), money_text(grand).len())
}

/// The width that the labels of `items` need, and `floor` at least.
pub open spec fn labels_width(items: Seq<BucketView>, floor: nat) -> nat
    decreases items.len(),
{
    if items.len() == 0 {
        floor
    } else {
        larger(labels_width(items.drop_last(), floor), items.last().label.len())
    }
}

/// The width of the receipt column: that of the longest label, and 7 at
/// least.
pub open spec fn label_width(rows: Seq<SharesView>) -> nat
    decreases rows.len(),
{
    if rows.len() == 0 {
        7
    } else {
        labels_width(rows.last().items, label_width(rows.drop_last()))
    }
}

/// The three column widths of a text report.
pub struct ColumnWidths {
    pub name: nat,
    pub total: nat,
    pub label: nat,
}

/// The column widths of the text report of `rows` and `grand`.
pub open spec fn widths_of(rows: Seq<SharesView>, grand: nat) -> ColumnWidths {
    ColumnWidths {
        name: name_width(rows),
        total: total_width(rows, grand),
        label: label_width(rows),
    }
}

/// A line of three cells, each filled up to its column's width. `gap`
/// stands between the first two cells, three spaces between the last two.
pub open spec fn txt_cells(
    w: ColumnWidths,
    name: Seq<char>,
    gap: Seq<char>,
    total: Seq<char>,
    label: Seq<char>,
) -> Seq<char> {
    padded(name, w.name) + gap + padded(total, w.total) + "   "@ + padded(label, w.label)
}

/// The line of dashes above and below the body: as long as a line of cells.
pub open spec fn txt_rule(w: ColumnWidths) -> Seq<char> {
    repeated('-', w.name + 3 + w.total + 3 + w.label) + "\n"@
}

/// The line of a text report for a participant: name and total.
pub open spec fn txt_participant_line(w: ColumnWidths, row: SharesView) -> Seq<char> {
    txt_cells(w, row.name, "   "@, money_text(row.total), Seq::empty()) + "\n"@
}

/// The line of a text report for one entry of a breakdown: the label under
/// a `>` mark, with the name and total columns left blank.
pub open spec fn txt_item_line(w: ColumnWidths, item: BucketView) -> Seq<char> {
    txt_cells(w, Seq::empty(), " > "@, Seq::empty(), item.label) + "\n"@
}

/// The lines of a text report for the entries of a breakdown.
pub open spec fn txt_item_lines(w: ColumnWidths, items: Seq<BucketView>) -> Seq<char>
    decreases items.len(),
{
    if items.len() == 0 {
        Seq::empty()
    } else {
        txt_item_lines(w, items.drop_last()) + txt_item_line(w, items.last())
    }
}

/// The lines of a text report for one participant: the line of the
/// participant, then the lines of their breakdown.
pub open spec fn txt_block(w: ColumnWidths, row: SharesView) -> Seq<char> {
    txt_participant_line(w, row) + txt_item_lines(w, row.items)
}

/// The lines of a text report for some participants, one after the other.
pub open spec fn txt_blocks(w: ColumnWidths, rows: Seq<SharesView>) -> Seq<char>
    decreases rows.len(),
{
    if rows.len() == 0 {
        Seq::empty()
    } else {
        txt_blocks(w, rows.drop_last()) + txt_block(w, rows.last())
    }
}

/// The last line of a text report: the grand total. It has no line break.
pub open spec fn txt_total_line(w: ColumnWidths, grand: nat) -> Seq<char> {
    txt_cells(w, "Total"@, "   "@, money_text(grand), Seq::empty())
}

/// A text report: the header, a rule, the participants with their
/// breakdowns, a rule, the grand total.
pub open spec fn txt_text(rows: Seq<SharesView>, grand: nat) -> Seq<char> {
    let w = widths_of(rows, grand);
    txt_cells(w, "Name"@, "   "@, "Total"@, "Receipt"@) + "\n"@ + txt_rule(w) + txt_blocks(w, rows)
        + txt_rule(w) + txt_total_line(w, grand)
}

/// Appends the lines of a CSV report for the entries of a breakdown.
fn push_csv_items(out: &mut String, items: &Vec<Bucket>)
    ensures
        final(out)@ == old(out)@ + csv_item_lines(bucket_views(items@)),
{
    let ghost views = bucket_views(items@);
    let mut k: usize = 0;
    assert(out@ =~= old(out)@ + csv_item_lines(views.take(0)));
    while k < items.len()
        invariant
            k <= items.len(),
            views == bucket_views(items@),
            out@ == old(out)@ + csv_item_lines(views.take(k as int)),
        decreases items.len() - k,
    {
        let item = &items[k];
        let ghost so_far = out@;
        out.append(",");
        out.append(format_money(item.amount).as_str());
        out.append(",");
        out.append(item.label.as_str());
        out.append("\n");
        proof {
            assert(out@ =~= so_far + csv_item_line(item@));
            assert(views.take(k + 1).drop_last() =~= views.take(k as int));
            assert(views.take(k + 1).last() == item@);
        }
        k += 1;
    }
    assert(views.take(k as int) =~= views);
}

/// Appends the lines of a CSV report for one participant.
fn push_csv_block(out: &mut String, row: &ParticipantShares)
    ensures
        final(out)@ == old(out)@ + csv_block(row@),
{
    out.append(row.name.as_str());
    out.append(",");
    out.append(format_money(row.total).as_str());
    out.append(",\n");
    assert(out@ =~= old(out)@ + csv_participant_line(row@));
    push_csv_items(out, &row.items);
    assert(out@ =~= old(out)@ + csv_block(row@));
}

/// Renders a share report as CSV.
pub fn export_csv(rows: &Vec<ParticipantShares>, grand: u128) -> (text: String)
    ensures
        text@ == csv_text(shares_views(rows@), grand as nat),
{
    let ghost views = shares_views(rows@);
    let mut text = String::from_str("Name,Total,Receipt\n");
    let mut i: usize = 0;
    assert(text@ =~= "Name,Total,Receipt\n"@ + csv_blocks(views.take(0)));
    while i < rows.len()
        invariant
            i <= rows.len(),
            views == shares_views(rows@),
            text@ == "Name,Total,Receipt\n"@ + csv_blocks(views.take(i as int)),
        decreases rows.len() - i,
    {
        let row = &rows[i];
        push_csv_block(&mut text, row);
        proof {
            let upto = views.take(i + 1);
            assert(upto.drop_last() =~= views.take(i as int));
            assert(upto.last() == row@);
            assert(csv_blocks(upto) == csv_blocks(views.take(i as int)) + csv_block(row@));
        }
        i += 1;
    }
    assert(views.take(i as int) =~= views);
    let ghost body = text@;
    text.append("Total,");
    text.append(format_money(grand).as_str());
    text.append(",");
    assert(text@ =~= body + csv_total_line(grand as nat));
    text
}

/// Appends `n` times the one character of `unit`.
fn push_repeated(out: &mut String, unit: &str, n: usize)
    requires
        unit@.len() == 1,
    ensures
        final(out)@ == old(out)@ + repeated(unit@[0], n as nat),
{
    let mut k: usize = 0;
    assert(out@ =~= old(out)@ + repeated(unit@[0], 0));
    while k < n
        invariant
            k <= n,
            unit@.len() == 1,
            out@ == old(out)@ + repeated(unit@[0], k as nat),
        decreases n - k,
    {
        out.append(unit);
        assert(out@ =~= old(out)@ + repeated(unit@[0], (k + 1) as nat));
        k += 1;
    }
}

/// Appends `text` filled up with spaces to `width` characters.
fn push_padded(out: &mut String, text: &str, width: usize)
    ensures
        final(out)@ == old(out)@ + padded(text@, width as nat),
{
    let len: usize = text.unicode_len();
    out.append(text);
    if len < width {
        proof {
            reveal_strlit(" ");
        }
        push_repeated(out, " ", width - len);
        assert(out@ =~= old(out)@ + padded(text@, width as nat));
    }
}

/// The widths as numbers without bound.
spec fn widths_view(widths: (usize, usize, usize)) -> ColumnWidths {
    ColumnWidths { name: widths.0 as nat, total: widths.1 as nat, label: widths.2 as nat }
}

/// Appends a line of three cells, without a line break.
fn push_cells(
    out: &mut String,
    widths: (usize, usize, usize),
    name: &str,
    gap: &str,
    total: &str,
    label: &str,
)
    ensures
        final(out)@ == old(out)@ + txt_cells(widths_view(widths), name@, gap@, total@, label@),
{
    push_padded(out, name, widths.0);
    out.append(gap);
    push_padded(out, total, widths.1);
    out.append("   ");
    push_padded(out, label, widths.2);
    assert(out@ =~= old(out)@ + txt_cells(widths_view(widths), name@, gap@, total@, label@));
}

/// Appends the line of dashes.
fn push_rule(out: &mut String, widths: (usize, usize, usize))
    ensures
        final(out)@ == old(out)@ + txt_rule(widths_view(widths)),
{
    proof {
        reveal_strlit("-");
        reveal_strlit("---");
    }
    push_repeated(out, "-", widths.0);
    out.append("---");
    push_repeated(out, "-", widths.1);
    out.append("---");
    push_repeated(out, "-", widths.2);
    out.append("\n");
    proof {
        let a = widths.0 as nat;
        let b = widths.1 as nat;
        let c = widths.2 as nat;
        assert("---"@ =~= repeated('-', 3));
        assert(repeated('-', a) + repeated('-', 3) + repeated('-', b) + repeated('-', 3)
            + repeated('-', c) =~= repeated('-', a + 3 + b + 3 + c));
        assert(out@ =~= old(out)@ + txt_rule(widths_view(widths)));
    }
}

/// The larger of two numbers.
fn max_of(a: usize, b: usize) -> (m: usize)
    ensures
        m == larger(a as nat, b as nat),
{
    if a >= b {
        a
    } else {
        b
    }
}

/// The column widths of the text report of `rows` and `grand`.
fn column_widths(rows: &Vec<ParticipantShares>, grand: u128) -> (widths: (usize, usize, usize))
    ensures
        widths.0 == name_width(shares_views(rows@)),
        widths.1 == total_width(shares_views(rows@), grand as nat),
        widths.2 == label_width(shares_views(rows@)),
{
    let ghost views = shares_views(rows@);
    let mut name: usize = 5;
    let mut total: usize = 5;
    let mut label: usize = 7;
    let mut i: usize = 0;
    while i < rows.len()
        invariant
            i <= rows.len(),
            views == shares_views(rows@),
            name == name_width(views.take(i as int)),
            total == totals_width(views.take(i as int)),
            label == label_width(views.take(i as int)),
        decreases rows.len() - i,
    {
        let row = &rows[i];
        proof {
            assert(views.take(i + 1).drop_last() =~= views.take(i as int));
            assert(views.take(i + 1).last() == row@);
        }
        name = max_of(name, row.name.as_str().unicode_len());
        total = max_of(total, format_money(row.total).as_str().unicode_len());
        let ghost items = bucket_views(row.items@);
        let ghost floor = label as nat;
        let mut k: usize = 0;
        while k < row.items.len()
            invariant
                k <= row.items.len(),
                items == bucket_views(row.items@),
                label == labels_width(items.take(k as int), floor),
            decreases row.items.len() - k,
        {
            proof {
                assert(items.take(k + 1).drop_last() =~= items.take(k as int));
                assert(items.take(k + 1).last() == row.items@[k as int]@);
            }
            label = max_of(label, row.items[k].label.as_str().unicode_len());
            k += 1;
        }
        assert(items.take(k as int) =~= items);
        i += 1;
    }
    assert(views.take(i as int) =~= views);
    total = max_of(total, format_money(grand).as_str().unicode_len());
    (name, total, label)
}

/// Appends the lines of a text report for the entries of a breakdown.
fn push_txt_items(out: &mut String, widths: (usize, usize, usize), items: &Vec<Bucket>)
    ensures
        final(out)@ == old(out)@ + txt_item_lines(widths_view(widths), bucket_views(items@)),
{
    let ghost w = widths_view(widths);
    let ghost views = bucket_views(items@);
    let mut k: usize = 0;
    assert(out@ =~= old(out)@ + txt_item_lines(w, views.take(0)));
    while k < items.len()
        invariant
            k <= items.len(),
            w == widths_view(widths),
            views == bucket_views(items@),
            out@ == old(out)@ + txt_item_lines(w, views.take(k as int)),
        decreases items.len() - k,
    {
        let item = &items[k];
        let ghost so_far = out@;
        push_cells(out, widths, "", " > ", "", item.label.as_str());
        out.append("\n");
        proof {
            reveal_strlit("");
            assert(""@ =~= Seq::<char>::empty());
            assert(out@ =~= so_far + txt_item_line(w, item@));
            assert(views.take(k + 1).drop_last() =~= views.take(k as int));
            assert(views.take(k + 1).last() == item@);
        }
        k += 1;
    }
    assert(views.take(k as int) =~= views);
}

/// Appends the lines of a text report for one participant.
fn push_txt_block(out: &mut String, widths: (usize, usize, usize), row: &ParticipantShares)
    ensures
        final(out)@ == old(out)@ + txt_block(widths_view(widths), row@),
{
    push_cells(out, widths, row.name.as_str(), "   ", format_money(row.total).as_str(), "");
    out.append("\n");
    proof {
        reveal_strlit("");
        assert(""@ =~= Seq::<char>::empty());
        assert(out@ =~= old(out)@ + txt_participant_line(widths_view(widths), row@));
    }
    push_txt_items(out, widths, &row.items);
    assert(out@ =~= old(out)@ + txt_block(widths_view(widths), row@));
}

/// Renders a share report as fixed-width text.
pub fn export_txt(rows: &Vec<ParticipantShares>, grand: u128) -> (text: String)
    ensures
        text@ == txt_text(shares_views(rows@), grand as nat),
{
    let ghost views = shares_views(rows@);
    let widths = column_widths(rows, grand);
    let ghost w = widths_of(views, grand as nat);
    assert(w == widths_view(widths));
    let mut text = String::new();
    push_cells(&mut text, widths, "Name", "   ", "Total", "Receipt");
    text.append("\n");
    push_rule(&mut text, widths);
    let ghost top = text@;
    assert(top =~= txt_cells(w, "Name"@, "   "@, "Total"@, "Receipt"@) + "\n"@ + txt_rule(w));
    let mut i: usize = 0;
    assert(text@ =~= top + txt_blocks(w, views.take(0)));
    while i < rows.len()
        invariant
            i <= rows.len(),
            views == shares_views(rows@),
            w == widths_view(widths),
            text@ == top + txt_blocks(w, views.take(i as int)),
        decreases rows.len() - i,
    {
        let row = &rows[i];
        push_txt_block(&mut text, widths, row);
        proof {
            let upto = views.take(i + 1);
            assert(upto.drop_last() =~= views.take(i as int));
            assert(upto.last() == row@);
            assert(txt_blocks(w, upto) == txt_blocks(w, views.take(i as int)) + txt_block(w, row@));
        }
        i += 1;
    }
    assert(views.take(i as int) =~= views);
    push_rule(&mut text, widths);
    let ghost body = text@;
    push_cells(&mut text, widths, "Total", "   ", format_money(grand).as_str(), "");
    proof {
        reveal_strlit("");
        assert(""@ =~= Seq::<char>::empty());
        assert(text@ =~= body + txt_total_line(w, grand as nat));
    }
    text
}

} // verus!
