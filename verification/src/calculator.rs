//! The executable share calculator and aggregator.
//!
//! Each function computes from the three components of a ledger exactly
//! what the functions of [`crate::shares`] define.

use crate::assignment::AssignmentTable;
use crate::entity::{participant_views, receipt_views, Participant, ParticipantView, Receipt};
use crate::exclusion::ExclusionLedger;
use crate::shares;
use crate::shares::{
    attributed, attributed_sum, breakdown, breakdown_over, bucket_sum, credited, distinct_labels,
    has_label, label_index, lemma_attributed_sum_bound, lemma_breakdown, lemma_bucket_sum_update,
    lemma_grand_total_by_receipt, lemma_owed_sum_bound, lemma_share_bounds,
    lemma_unattributed_sum_bound, owed_sum, participant_total, share, unattributed,
    unattributed_sum, BucketView, LedgerView,
};
use crate::store::{EntityStore, StoreView};
use vstd::prelude::*;

verus! {

/// One entry of a participant's breakdown.
#[derive(Debug)]
pub struct Bucket {
    pub label: String,
    /// The amount in cents.
    pub amount: u128,
}

impl View for Bucket {
    type V = BucketView;

    open spec fn view(&self) -> BucketView {
        BucketView { label: self.label@, amount: self.amount as nat }
    }
}

/// What one participant owes: in all, and label by label.
#[derive(Debug)]
pub struct ParticipantShares {
    pub id: u128,
    pub name: String,
    /// The sum of the amounts of `items`, in cents.
    pub total: u128,
    pub items: Vec<Bucket>,
}

/// The mathematical view of a [`ParticipantShares`].
pub struct SharesView {
    pub id: u128,
    pub name: Seq<char>,
    pub total: nat,
    pub items: Seq<BucketView>,
}

/// The views of a sequence of buckets.
pub open spec fn bucket_views(buckets: Seq<Bucket>) -> Seq<BucketView> {
    buckets.map_values(|b: Bucket| b@)
}

impl View for ParticipantShares {
    type V = SharesView;

    open spec fn view(&self) -> SharesView {
        SharesView {
            id: self.id,
            name: self.name@,
            total: self.total as nat,
            items: bucket_views(self.items@),
        }
    }
}

/// The views of a sequence of rows.
pub open spec fn shares_views(rows: Seq<ParticipantShares>) -> Seq<SharesView> {
    rows.map_values(|row: ParticipantShares| row@)
}

/// The three components of a ledger seen as one state.
pub open spec fn ledger_view(
    store: StoreView,
    assignments: Map<u128, Set<u128>>,
    exclusions: Map<u128, crate::entity::ReceiptView>,
) -> LedgerView {
    LedgerView {
        participants: store.participants,
        receipts: store.receipts,
        assignments,
        exclusions,
    }
}

/// What the participant `p` owes in the state `s`.
pub open spec fn shares_of(s: LedgerView, p: ParticipantView) -> SharesView {
    SharesView {
        id: p.id,
        name: p.name,
        total: participant_total(s, p.id),
        items: breakdown(s, p.id),
    }
}

/// What every participant owes in the state `s`, in the order of the
/// participants.
pub open spec fn share_rows(s: LedgerView) -> Seq<SharesView> {
    s.participants.map_values(|p: ParticipantView| shares_of(s, p))
}

/// The most that `n` receipts can come to: it fits in 128 bits.
proof fn lemma_sum_fits(n: nat)
    requires
        n <= usize::MAX,
    ensures
        n * u64::MAX <= u128::MAX,
{
    assert(n * u64::MAX <= u128::MAX) by (nonlinear_arith)
        requires
            n <= 0xffff_ffff_ffff_ffff,
            u64::MAX == 0xffff_ffff_ffff_ffff,
            u128::MAX == 0xffff_ffff_ffff_ffff_ffff_ffff_ffff_ffff,
    ;
}

/// What of the receipt `r` is there to share.
pub fn shareable_total(r: &Receipt, exclusions: &ExclusionLedger) -> (amount: u64)
    ensures
        amount == shares::shareable_total(exclusions@, r@),
{
    if r.exclusion {
        return r.total;
    }
    let carved: u64 = exclusions.exclusion_amount(r.id);
    if carved <= r.total {
        r.total - carved
    } else {
        0
    }
}

/// How many of `participants` share in the receipt `rid`.
pub fn count_sharers(
    participants: &Vec<Participant>,
    table: &AssignmentTable,
    rid: u128,
) -> (n: usize)
    ensures
        n == shares::count_sharers(participant_views(participants@), table@, rid),
{
    let ghost ps = participant_views(participants@);
    let mut n: usize = 0;
    let mut i: usize = 0;
    while i < participants.len()
        invariant
            i <= participants.len(),
            ps == participant_views(participants@),
            n == shares::count_sharers(ps.take(i as int), table@, rid),
            n <= i,
        decreases participants.len() - i,
    {
        proof {
            assert(ps.take(i + 1).drop_last() =~= ps.take(i as int));
            assert(ps.take(i + 1).last() == participants@[i as int]@);
        }
        if table.is_assigned(participants[i].id, rid) {
            n += 1;
        }
        i += 1;
    }
    assert(ps.take(i as int) =~= ps);
    n
}

/// What each sharer owes for the receipt `r`.
pub fn receipt_share(
    store: &EntityStore,
    table: &AssignmentTable,
    exclusions: &ExclusionLedger,
    r: &Receipt,
) -> (amount: u64)
    ensures
        amount == share(ledger_view(store@, table@, exclusions@), r@),
{
    if r.exclusion {
        return 0;
    }
    let n: usize = count_sharers(store.participants(), table, r.id);
    if n == 0 {
        0
    } else {
        shareable_total(r, exclusions) / (n as u64)
    }
}

/// What each sharer owes for each receipt, in the order of the receipts.
pub fn receipt_shares(
    store: &EntityStore,
    table: &AssignmentTable,
    exclusions: &ExclusionLedger,
) -> (amounts: Vec<u64>)
    ensures
        amounts@.len() == store@.receipts.len(),
        forall|j: int|
            0 <= j < amounts@.len() ==> amounts@[j] == share(
                ledger_view(store@, table@, exclusions@),
                #[trigger] store@.receipts[j],
            ),
{
    let receipts = store.receipts();
    let mut amounts: Vec<u64> = Vec::new();
    let mut j: usize = 0;
    while j < receipts.len()
        invariant
            j <= receipts.len(),
            receipt_views(receipts@) == store@.receipts,
            amounts@.len() == j,
            forall|k: int|
                0 <= k < j ==> amounts@[k] == share(
                    ledger_view(store@, table@, exclusions@),
                    #[trigger] store@.receipts[k],
                ),
        decreases receipts.len() - j,
    {
        let amount: u64 = receipt_share(store, table, exclusions, &receipts[j]);
        assert(store@.receipts[j as int] == receipts@[j as int]@);
        amounts.push(amount);
        j += 1;
    }
    amounts
}

/// Puts `amount` more under `label`: into the bucket that carries the
/// label, or into a new bucket at the end.
pub fn credit(buckets: &mut Vec<Bucket>, label: &String, amount: u128)
    requires
        distinct_labels(bucket_views(old(buckets)@)),
        bucket_sum(bucket_views(old(buckets)@)) + amount <= u128::MAX,
    ensures
        bucket_views(final(buckets)@) == credited(
            bucket_views(old(buckets)@),
            label@,
            amount as nat,
        ),
{
    let ghost before = bucket_views(buckets@);
    let mut i: usize = 0;
    while i < buckets.len()
        invariant
            i <= buckets.len(),
            *buckets == *old(buckets),
            before == bucket_views(buckets@),
            distinct_labels(before),
            bucket_sum(before) + amount <= u128::MAX,
            forall|k: int| 0 <= k < i ==> before[k].label != label@,
        decreases buckets.len() - i,
    {
        if buckets[i].label == *label {
            proof {
                assert(before[i as int].label == label@);
                assert(has_label(before, label@));
                assert(label_index(before, label@) == i);
                lemma_bucket_sum_update(before, i as int, before[i as int]);
            }
            let sum: u128 = buckets[i].amount + amount;
            buckets[i].amount = sum;
            assert(bucket_views(buckets@) =~= credited(before, label@, amount as nat));
            return ;
        }
        i += 1;
    }
    assert(!has_label(before, label@));
    buckets.push(Bucket { label: label.clone(), amount });
    assert(bucket_views(buckets@) =~= credited(before, label@, amount as nat));
}

/// What the participant `pid` owes, label by label and in all, given what
/// each sharer owes for each receipt.
fn breakdown_with(
    store: &EntityStore,
    table: &AssignmentTable,
    exclusions: &ExclusionLedger,
    pid: u128,
    amounts: &Vec<u64>,
) -> (out: (Vec<Bucket>, u128))
    requires
        amounts@.len() == store@.receipts.len(),
        forall|j: int|
            0 <= j < amounts@.len() ==> amounts@[j] == share(
                ledger_view(store@, table@, exclusions@),
                #[trigger] store@.receipts[j],
            ),
    ensures
        bucket_views(out.0@) == breakdown(ledger_view(store@, table@, exclusions@), pid),
        out.1 == participant_total(ledger_view(store@, table@, exclusions@), pid),
{
    let ghost s = ledger_view(store@, table@, exclusions@);
    let receipts = store.receipts();
    let ghost rs = store@.receipts;
    let mut buckets: Vec<Bucket> = Vec::new();
    let mut total: u128 = 0;
    let mut j: usize = 0;
    assert(bucket_views(buckets@) =~= breakdown_over(s, pid, rs.take(0)));
    while j < receipts.len()
        invariant
            j <= receipts.len(),
            s == ledger_view(store@, table@, exclusions@),
            rs == store@.receipts,
            receipt_views(receipts@) == rs,
            amounts@.len() == rs.len(),
            forall|k: int| 0 <= k < amounts@.len() ==> amounts@[k] == share(s, #[trigger] rs[k]),
            bucket_views(buckets@) == breakdown_over(s, pid, rs.take(j as int)),
            total == owed_sum(s, pid, rs.take(j as int)),
        decreases receipts.len() - j,
    {
        let r = &receipts[j];
        proof {
            assert(rs[j as int] == r@);
            let upto = rs.take(j + 1);
            assert(upto.drop_last() =~= rs.take(j as int));
            assert(upto.last() == r@);
            lemma_breakdown(s, pid, rs.take(j as int));
            lemma_breakdown(s, pid, upto);
            assert forall|k: int| 0 <= k < upto.len() implies #[trigger] upto[k].total
                <= u64::MAX by {
                assert(upto[k] == receipts@[k]@);
            }
            lemma_owed_sum_bound(s, pid, upto, u64::MAX as nat);
            lemma_sum_fits((j + 1) as nat);
        }
        if !r.exclusion && table.is_assigned(pid, r.id) {
            credit(&mut buckets, &r.label, amounts[j] as u128);
            total = total + amounts[j] as u128;
        }
        j += 1;
    }
    proof {
        assert(rs.take(j as int) =~= rs);
        lemma_breakdown(s, pid, rs);
    }
    (buckets, total)
}

/// The breakdown of the participant `pid`: for each label among the
/// ordinary receipts they share in, what they owe under that label.
pub fn breakdown_of(
    store: &EntityStore,
    table: &AssignmentTable,
    exclusions: &ExclusionLedger,
    pid: u128,
) -> (buckets: Vec<Bucket>)
    ensures
        bucket_views(buckets@) == breakdown(ledger_view(store@, table@, exclusions@), pid),
        distinct_labels(bucket_views(buckets@)),
{
    proof {
        lemma_breakdown(ledger_view(store@, table@, exclusions@), pid, store@.receipts);
    }
    let amounts = receipt_shares(store, table, exclusions);
    breakdown_with(store, table, exclusions, pid, &amounts).0
}

/// What the participant `pid` owes in all.
pub fn participant_share(
    store: &EntityStore,
    table: &AssignmentTable,
    exclusions: &ExclusionLedger,
    pid: u128,
) -> (amount: u128)
    ensures
        amount == participant_total(ledger_view(store@, table@, exclusions@), pid),
{
    let amounts = receipt_shares(store, table, exclusions);
    breakdown_with(store, table, exclusions, pid, &amounts).1
}

/// What every participant owes, label by label and in all, in the order of
/// the participants.
pub fn share_map(
    store: &EntityStore,
    table: &AssignmentTable,
    exclusions: &ExclusionLedger,
) -> (rows: Vec<ParticipantShares>)
    ensures
        shares_views(rows@) == share_rows(ledger_view(store@, table@, exclusions@)),
        forall|k: int|
            0 <= k < rows@.len() ==> {
                &&& distinct_labels((#[trigger] rows@[k])@.items)
                &&& rows@[k].total == bucket_sum(rows@[k]@.items)
            },
{
    let ghost s = ledger_view(store@, table@, exclusions@);
    let amounts = receipt_shares(store, table, exclusions);
    let participants = store.participants();
    let mut rows: Vec<ParticipantShares> = Vec::new();
    let mut i: usize = 0;
    while i < participants.len()
        invariant
            i <= participants.len(),
            s == ledger_view(store@, table@, exclusions@),
            participant_views(participants@) == s.participants,
            amounts@.len() == store@.receipts.len(),
            forall|j: int|
                0 <= j < amounts@.len() ==> amounts@[j] == share(s, #[trigger] store@.receipts[j]),
            rows@.len() == i,
            forall|k: int| 0 <= k < i ==> rows@[k]@ == shares_of(s, #[trigger] s.participants[k]),
        decreases participants.len() - i,
    {
        let p = &participants[i];
        assert(s.participants[i as int] == p@);
        let (items, total) = breakdown_with(store, table, exclusions, p.id, &amounts);
        rows.push(ParticipantShares { id: p.id, name: p.name.clone(), total, items });
        i += 1;
    }
    proof {
        assert(shares_views(rows@) =~= share_rows(s));
        assert forall|k: int| 0 <= k < rows@.len() implies {
            &&& distinct_labels((#[trigger] rows@[k])@.items)
            &&& rows@[k].total == bucket_sum(rows@[k]@.items)
        } by {
            lemma_breakdown(s, s.participants[k].id, s.receipts);
        }
    }
    rows
}

/// What all participants owe together.
pub fn grand_total(
    store: &EntityStore,
    table: &AssignmentTable,
    exclusions: &ExclusionLedger,
) -> (amount: u128)
    ensures
        amount == shares::grand_total(ledger_view(store@, table@, exclusions@)),
{
    let ghost s = ledger_view(store@, table@, exclusions@);
    let receipts = store.receipts();
    let participants = store.participants();
    let ghost rs = store@.receipts;
    let mut amount: u128 = 0;
    let mut j: usize = 0;
    while j < receipts.len()
        invariant
            j <= receipts.len(),
            s == ledger_view(store@, table@, exclusions@),
            rs == store@.receipts,
            receipt_views(receipts@) == rs,
            participant_views(participants@) == s.participants,
            amount == attributed_sum(s, rs.take(j as int)),
        decreases receipts.len() - j,
    {
        let r = &receipts[j];
        proof {
            assert(rs[j as int] == r@);
            let upto = rs.take(j + 1);
            assert(upto.drop_last() =~= rs.take(j as int));
            assert(upto.last() == r@);
            assert forall|k: int| 0 <= k < upto.len() implies #[trigger] upto[k].total
                <= u64::MAX by {
                assert(upto[k] == receipts@[k]@);
            }
            lemma_attributed_sum_bound(s, upto, u64::MAX as nat);
            lemma_sum_fits((j + 1) as nat);
            lemma_share_bounds(s, r@);
        }
        let n: usize = count_sharers(participants, table, r.id);
        let each: u64 = receipt_share(store, table, exclusions, r);
        assert(n * each == attributed(s, r@));
        let part: u128 = (n as u128) * (each as u128);
        amount = amount + part;
        j += 1;
    }
    proof {
        assert(rs.take(j as int) =~= rs);
        lemma_grand_total_by_receipt(s);
    }
    amount
}

/// What of the receipts nobody owes: what there is to share of the receipts
/// that nobody shares, and the cents that do not divide evenly among the
/// sharers of the others.
pub fn unattributed_total(
    store: &EntityStore,
    table: &AssignmentTable,
    exclusions: &ExclusionLedger,
) -> (amount: u128)
    ensures
        amount == unattributed_sum(
            ledger_view(store@, table@, exclusions@),
            store@.receipts,
        ),
{
    let ghost s = ledger_view(store@, table@, exclusions@);
    let receipts = store.receipts();
    let participants = store.participants();
    let ghost rs = store@.receipts;
    let mut amount: u128 = 0;
    let mut j: usize = 0;
    while j < receipts.len()
        invariant
            j <= receipts.len(),
            s == ledger_view(store@, table@, exclusions@),
            rs == store@.receipts,
            receipt_views(receipts@) == rs,
            participant_views(participants@) == s.participants,
            amount == unattributed_sum(s, rs.take(j as int)),
        decreases receipts.len() - j,
    {
        let r = &receipts[j];
        proof {
            let upto = rs.take(j + 1);
            assert(rs[j as int] == r@);
            assert(upto.drop_last() =~= rs.take(j as int));
            assert(upto.last() == r@);
            assert forall|k: int| 0 <= k < upto.len() implies #[trigger] upto[k].total
                <= u64::MAX by {
                assert(upto[k] == receipts@[k]@);
            }
            lemma_unattributed_sum_bound(s, upto, u64::MAX as nat);
            lemma_sum_fits((j + 1) as nat);
            lemma_share_bounds(s, r@);
        }
        if !r.exclusion {
            let n: usize = count_sharers(participants, table, r.id);
            let all: u64 = shareable_total(r, exclusions);
            if n == 0 {
                assert(attributed(s, r@) == 0) by {
                    assert(0 * share(s, r@) == 0) by (nonlinear_arith);
                }
                amount = amount + all as u128;
            } else {
                assert(all % (n as u64) == unattributed(s, r@));
                amount = amount + (all % (n as u64)) as u128;
            }
        }
        j += 1;
    }
    assert(rs.take(j as int) =~= rs);
    amount
}

} // verus!
