//! The share calculation: what every participant owes for every receipt.
//!
//! Everything here is a function of the current records, assignments and
//! exclusions. Nothing is cached between calls.

use crate::assignment::assigned;
use crate::entity::{ParticipantView, ReceiptView};
use crate::exclusion::exclusion_amount;
use vstd::prelude::*;

verus! {

/// The state of a ledger as the share calculation reads it.
pub struct LedgerView {
    /// The participants, in the order in which they were added.
    pub participants: Seq<ParticipantView>,
    /// The receipts, exclusion records among them, in the order in which
    /// they were added.
    pub receipts: Seq<ReceiptView>,
    /// For each registered participant, the receipts they share in.
    pub assignments: Map<u128, Set<u128>>,
    /// For a parent receipt, its exclusion record.
    pub exclusions: Map<u128, ReceiptView>,
}

/// One entry of a participant's breakdown: what they owe for the receipts
/// that carry `label`.
pub struct BucketView {
    pub label: Seq<char>,
    pub amount: nat,
}

/// What of the receipt `r` is there to share: its total less the amount
/// carved out of it, and never less than nothing. An exclusion record
/// stands for its own total.
pub open spec fn shareable_total(exclusions: Map<u128, ReceiptView>, r: ReceiptView) -> nat {
    if r.exclusion {
        r.total
    } else if exclusion_amount(exclusions, r.id) <= r.total {
        (r.total - exclusion_amount(exclusions, r.id)) as nat
    } else {
        0
    }
}

/// How many of the participants `ps` share in the receipt `rid`.
pub open spec fn count_sharers(ps: Seq<ParticipantView>, m: Map<u128, Set<u128>>, rid: u128) -> nat
    decreases ps.len(),
{
    if ps.len() == 0 {
        0
    } else {
        count_sharers(ps.drop_last(), m, rid) + if assigned(m, ps.last().id, rid) {
            1nat
        } else {
            0nat
        }
    }
}

/// How many participants share in the receipt `rid`.
pub open spec fn sharers(s: LedgerView, rid: u128) -> nat {
    count_sharers(s.participants, s.assignments, rid)
}

/// What each sharer owes for the receipt `r`: an equal part of what there is
/// to share, in whole cents. A receipt that nobody shares, and an exclusion
/// record, yield nothing.
pub open spec fn share(s: LedgerView, r: ReceiptView) -> nat {
    if r.exclusion || sharers(s, r.id) == 0 {
        0
    } else {
        shareable_total(s.exclusions, r) / sharers(s, r.id)
    }
}

/// What the participant `pid` owes for the receipt `r`.
pub open spec fn owed(s: LedgerView, pid: u128, r: ReceiptView) -> nat {
    if assigned(s.assignments, pid, r.id) {
        share(s, r)
    } else {
        0
    }
}

/// What the participant `pid` owes for the receipts `rs` together.
pub open spec fn owed_sum(s: LedgerView, pid: u128, rs: Seq<ReceiptView>) -> nat
    decreases rs.len(),
{
    if rs.len() == 0 {
        0
    } else {
        owed_sum(s, pid, rs.drop_last()) + owed(s, pid, rs.last())
    }
}

/// What the sharers of the receipt `r` owe for it together.
pub open spec fn attributed(s: LedgerView, r: ReceiptView) -> nat {
    sharers(s, r.id) * share(s, r)
}

/// What of the ordinary receipt `r` nobody owes: all that there is to share
/// if nobody shares it, else the cents that do not divide evenly. An
/// exclusion record is not there to be shared, so nothing of it is left.
pub open spec fn unattributed(s: LedgerView, r: ReceiptView) -> nat {
    if r.exclusion {
        0
    } else {
        (shareable_total(s.exclusions, r) - attributed(s, r)) as nat
    }
}

/// What of the receipts `rs` nobody owes.
pub open spec fn unattributed_sum(s: LedgerView, rs: Seq<ReceiptView>) -> nat
    decreases rs.len(),
{
    if rs.len() == 0 {
        0
    } else {
        unattributed_sum(s, rs.drop_last()) + unattributed(s, rs.last())
    }
}

/// What there is to share of the ordinary receipts among `rs`.
pub open spec fn shareable_sum(s: LedgerView, rs: Seq<ReceiptView>) -> nat
    decreases rs.len(),
{
    if rs.len() == 0 {
        0
    } else {
        shareable_sum(s, rs.drop_last()) + if rs.last().exclusion {
            0
        } else {
            shareable_total(s.exclusions, rs.last())
        }
    }
}

/// What all sharers owe for the receipts `rs` together.
pub open spec fn attributed_sum(s: LedgerView, rs: Seq<ReceiptView>) -> nat
    decreases rs.len(),
{
    if rs.len() == 0 {
        0
    } else {
        attributed_sum(s, rs.drop_last()) + attributed(s, rs.last())
    }
}

/// Whether one of `buckets` carries `label`.
pub open spec fn has_label(buckets: Seq<BucketView>, label: Seq<char>) -> bool {
    exists|i: int| 0 <= i < buckets.len() && #[trigger] buckets[i].label == label
}

/// The place of a bucket that carries `label`.
pub open spec fn label_index(buckets: Seq<BucketView>, label: Seq<char>) -> int
    recommends
        has_label(buckets, label),
{
    choose|i: int| 0 <= i < buckets.len() && #[trigger] buckets[i].label == label
}

/// Whether no two of `buckets` carry the same label.
pub open spec fn distinct_labels(buckets: Seq<BucketView>) -> bool {
    forall|i: int, j: int|
        0 <= i < buckets.len() && 0 <= j < buckets.len() && i != j ==> #[trigger] buckets[i].label
            != #[trigger] buckets[j].label
}

/// `buckets` with `amount` more under `label`: added to the bucket that
/// carries the label, or put in a new bucket at the end.
pub open spec fn credited(
    buckets: Seq<BucketView>,
    label: Seq<char>,
    amount: nat,
) -> Seq<BucketView> {
    if has_label(buckets, label) {
        let i = label_index(buckets, label);
        buckets.update(i, BucketView { label, amount: buckets[i].amount + amount })
    } else {
        buckets.push(BucketView { label, amount })
    }
}

/// The amounts of `buckets` together.
pub open spec fn bucket_sum(buckets: Seq<BucketView>) -> nat
    decreases buckets.len(),
{
    if buckets.len() == 0 {
        0
    } else {
        bucket_sum(buckets.drop_last()) + buckets.last().amount
    }
}

/// The breakdown of the participant `pid` over the receipts `rs`: one bucket
/// for each label among the ordinary receipts of `rs` that `pid` shares in,
/// in the order in which the labels first occur, holding what `pid` owes for
/// the receipts of that label.
pub open spec fn breakdown_over(s: LedgerView, pid: u128, rs: Seq<ReceiptView>) -> Seq<BucketView>
    decreases rs.len(),
{
    if rs.len() == 0 {
        Seq::empty()
    } else {
        let before = breakdown_over(s, pid, rs.drop_last());
        let r = rs.last();
        if !r.exclusion && assigned(s.assignments, pid, r.id) {
            credited(before, r.label, share(s, r))
        } else {
            before
        }
    }
}

/// The breakdown of the participant `pid` over all receipts.
pub open spec fn breakdown(s: LedgerView, pid: u128) -> Seq<BucketView> {
    breakdown_over(s, pid, s.receipts)
}

/// What the participant `pid` owes in all: the sum of their breakdown.
pub open spec fn participant_total(s: LedgerView, pid: u128) -> nat {
    bucket_sum(breakdown(s, pid))
}

/// The totals of the participants `ps` together.
pub open spec fn total_over(s: LedgerView, ps: Seq<ParticipantView>) -> nat
    decreases ps.len(),
{
    if ps.len() == 0 {
        0
    } else {
        total_over(s, ps.drop_last()) + participant_total(s, ps.last().id)
    }
}

/// What all participants owe together.
pub open spec fn grand_total(s: LedgerView) -> nat {
    total_over(s, s.participants)
}

/// The amount under `label` in `buckets`; nothing if no bucket carries it.
pub open spec fn amount_under(buckets: Seq<BucketView>, label: Seq<char>) -> nat {
    if has_label(buckets, label) {
        buckets[label_index(buckets, label)].amount
    } else {
        0
    }
}

/// What the participant `pid` owes for those of the receipts `rs` that carry
/// `label`.
pub open spec fn owed_under(s: LedgerView, pid: u128, rs: Seq<ReceiptView>, label: Seq<char>) -> nat
    decreases rs.len(),
{
    if rs.len() == 0 {
        0
    } else {
        owed_under(s, pid, rs.drop_last(), label) + if rs.last().label == label {
            owed(s, pid, rs.last())
        } else {
            0
        }
    }
}

/// Replacing a bucket changes the sum by the difference of the two amounts,
/// and no bucket holds more than the sum.
pub proof fn lemma_bucket_sum_update(buckets: Seq<BucketView>, i: int, b: BucketView)
    requires
        0 <= i < buckets.len(),
    ensures
        bucket_sum(buckets.update(i, b)) + buckets[i].amount == bucket_sum(buckets) + b.amount,
        buckets[i].amount <= bucket_sum(buckets),
    decreases buckets.len(),
{
    let after = buckets.update(i, b);
    if i == buckets.len() - 1 {
        assert(after.drop_last() =~= buckets.drop_last());
    } else {
        lemma_bucket_sum_update(buckets.drop_last(), i, b);
        assert(after.drop_last() =~= buckets.drop_last().update(i, b));
    }
}

/// Pushing a bucket adds its amount to the sum.
pub proof fn lemma_bucket_sum_push(buckets: Seq<BucketView>, b: BucketView)
    ensures
        bucket_sum(buckets.push(b)) == bucket_sum(buckets) + b.amount,
{
    assert(buckets.push(b).drop_last() =~= buckets);
}

/// Crediting an amount keeps the labels distinct, adds the amount to the
/// sum, and changes the amount under the credited label only.
pub proof fn lemma_credited(buckets: Seq<BucketView>, label: Seq<char>, amount: nat)
    requires
        distinct_labels(buckets),
    ensures
        distinct_labels(credited(buckets, label, amount)),
        bucket_sum(credited(buckets, label, amount)) == bucket_sum(buckets) + amount,
        has_label(credited(buckets, label, amount), label),
        amount_under(credited(buckets, label, amount), label) == amount_under(buckets, label)
            + amount,
        forall|other: Seq<char>|
            other != label ==> has_label(credited(buckets, label, amount), other) == has_label(
                buckets,
                other,
            ) && amount_under(credited(buckets, label, amount), other) == amount_under(
                buckets,
                other,
            ),
{
    let after = credited(buckets, label, amount);
    if has_label(buckets, label) {
        let i = label_index(buckets, label);
        let b = BucketView { label, amount: buckets[i].amount + amount };
        lemma_bucket_sum_update(buckets, i, b);
        assert(after[i].label == label);
        assert(label_index(after, label) == i);
        assert forall|other: Seq<char>| other != label implies has_label(after, other)
            == has_label(buckets, other) && amount_under(after, other) == amount_under(
            buckets,
            other,
        ) by {
            if has_label(buckets, other) {
                let j = label_index(buckets, other);
                assert(after[j].label == other);
                assert(label_index(after, other) == j);
            }
            if has_label(after, other) {
                let j = label_index(after, other);
                assert(buckets[j].label == other);
            }
        }
    } else {
        let b = BucketView { label, amount };
        lemma_bucket_sum_push(buckets, b);
        let i = buckets.len() as int;
        assert(after[i].label == label);
        assert(label_index(after, label) == i);
        assert forall|other: Seq<char>| other != label implies has_label(after, other)
            == has_label(buckets, other) && amount_under(after, other) == amount_under(
            buckets,
            other,
        ) by {
            if has_label(buckets, other) {
                let j = label_index(buckets, other);
                assert(after[j].label == other);
                assert(label_index(after, other) == j);
            }
            if has_label(after, other) {
                let j = label_index(after, other);
                assert(buckets[j].label == other);
            }
        }
    }
}

/// A share is at most what there is to share, which is at most the
/// receipt's total. What the sharers owe together is what there is to
/// share less the cents that do not divide evenly.
pub proof fn lemma_share_bounds(s: LedgerView, r: ReceiptView)
    ensures
        share(s, r) <= shareable_total(s.exclusions, r) <= r.total,
        attributed(s, r) <= shareable_total(s.exclusions, r),
        !r.exclusion && sharers(s, r.id) > 0 ==> attributed(s, r) + shareable_total(
            s.exclusions,
            r,
        ) % sharers(s, r.id) == shareable_total(s.exclusions, r),
{
    let n = sharers(s, r.id);
    let t = shareable_total(s.exclusions, r);
    if r.exclusion || n == 0 {
        assert(n * 0 == 0) by (nonlinear_arith);
    } else {
        assert(t / n <= t && n * (t / n) + t % n == t) by (nonlinear_arith)
            requires
                n > 0,
        ;
    }
}

/// A participant's breakdown has distinct labels, sums to what they owe for
/// the receipts, and holds under each label what they owe for the receipts
/// of that label.
pub proof fn lemma_breakdown(s: LedgerView, pid: u128, rs: Seq<ReceiptView>)
    ensures
        distinct_labels(breakdown_over(s, pid, rs)),
        bucket_sum(breakdown_over(s, pid, rs)) == owed_sum(s, pid, rs),
        forall|label: Seq<char>|
            amount_under(breakdown_over(s, pid, rs), label) == owed_under(s, pid, rs, label),
    decreases rs.len(),
{
    if rs.len() > 0 {
        let before = breakdown_over(s, pid, rs.drop_last());
        let r = rs.last();
        lemma_breakdown(s, pid, rs.drop_last());
        if !r.exclusion && assigned(s.assignments, pid, r.id) {
            lemma_credited(before, r.label, share(s, r));
        }
        assert forall|label: Seq<char>|
            amount_under(breakdown_over(s, pid, rs), label) == owed_under(s, pid, rs, label) by {
            assert(amount_under(before, label) == owed_under(s, pid, rs.drop_last(), label));
        }
    }
}

/// What a participant owes for some receipts is at most as many times
/// `bound` as there are receipts, if no receipt's total exceeds `bound`.
pub proof fn lemma_owed_sum_bound(s: LedgerView, pid: u128, rs: Seq<ReceiptView>, bound: nat)
    requires
        forall|j: int| 0 <= j < rs.len() ==> rs[j].total <= bound,
    ensures
        owed_sum(s, pid, rs) <= rs.len() * bound,
    decreases rs.len(),
{
    if rs.len() > 0 {
        lemma_owed_sum_bound(s, pid, rs.drop_last(), bound);
        lemma_share_bounds(s, rs.last());
        let n = rs.len() as int;
        assert((n - 1) * bound + bound == n * bound) by (nonlinear_arith);
    } else {
        assert(0 * bound == 0) by (nonlinear_arith);
    }
}

/// What all sharers owe for some receipts is at most as many times `bound`
/// as there are receipts, if no receipt's total exceeds `bound`.
pub proof fn lemma_attributed_sum_bound(s: LedgerView, rs: Seq<ReceiptView>, bound: nat)
    requires
        forall|j: int| 0 <= j < rs.len() ==> rs[j].total <= bound,
    ensures
        attributed_sum(s, rs) <= rs.len() * bound,
    decreases rs.len(),
{
    if rs.len() > 0 {
        lemma_attributed_sum_bound(s, rs.drop_last(), bound);
        lemma_share_bounds(s, rs.last());
        let n = rs.len() as int;
        assert((n - 1) * bound + bound == n * bound) by (nonlinear_arith);
    } else {
        assert(0 * bound == 0) by (nonlinear_arith);
    }
}

/// What there is to share of some receipts is what their sharers owe and
/// what nobody owes, and nothing else.
pub proof fn lemma_nothing_lost(s: LedgerView, rs: Seq<ReceiptView>)
    ensures
        attributed_sum(s, rs) + unattributed_sum(s, rs) == shareable_sum(s, rs),
    decreases rs.len(),
{
    if rs.len() > 0 {
        lemma_nothing_lost(s, rs.drop_last());
        lemma_share_bounds(s, rs.last());
        if rs.last().exclusion {
            assert(sharers(s, rs.last().id) * 0 == 0) by (nonlinear_arith);
        }
    }
}

/// What nobody owes of some receipts is at most as many times `bound` as
/// there are receipts, if no receipt's total exceeds `bound`.
pub proof fn lemma_unattributed_sum_bound(s: LedgerView, rs: Seq<ReceiptView>, bound: nat)
    requires
        forall|j: int| 0 <= j < rs.len() ==> rs[j].total <= bound,
    ensures
        unattributed_sum(s, rs) <= rs.len() * bound,
    decreases rs.len(),
{
    if rs.len() > 0 {
        lemma_unattributed_sum_bound(s, rs.drop_last(), bound);
        lemma_share_bounds(s, rs.last());
        let n = rs.len() as int;
        assert((n - 1) * bound + bound == n * bound) by (nonlinear_arith);
    } else {
        assert(0 * bound == 0) by (nonlinear_arith);
    }
}

/// What the participants `ps` owe for the receipt `r` together.
pub open spec fn owed_across(s: LedgerView, ps: Seq<ParticipantView>, r: ReceiptView) -> nat
    decreases ps.len(),
{
    if ps.len() == 0 {
        0
    } else {
        owed_across(s, ps.drop_last(), r) + owed(s, ps.last().id, r)
    }
}

/// What the participants `ps` owe for the receipts `rs` together, summed
/// participant by participant.
pub open spec fn owed_grid(s: LedgerView, ps: Seq<ParticipantView>, rs: Seq<ReceiptView>) -> nat
    decreases ps.len(),
{
    if ps.len() == 0 {
        0
    } else {
        owed_grid(s, ps.drop_last(), rs) + owed_sum(s, ps.last().id, rs)
    }
}

/// Together the participants `ps` owe for a receipt one share for each of
/// them who shares in it.
pub proof fn lemma_owed_across(s: LedgerView, ps: Seq<ParticipantView>, r: ReceiptView)
    ensures
        owed_across(s, ps, r) == count_sharers(ps, s.assignments, r.id) * share(s, r),
    decreases ps.len(),
{
    let x = share(s, r);
    if ps.len() > 0 {
        lemma_owed_across(s, ps.drop_last(), r);
        let c = count_sharers(ps.drop_last(), s.assignments, r.id);
        assert((c + 1) * x == c * x + x) by (nonlinear_arith);
    } else {
        assert(0 * x == 0) by (nonlinear_arith);
    }
}

/// One more receipt adds to the grid what the participants owe for it.
proof fn lemma_owed_grid_step(s: LedgerView, ps: Seq<ParticipantView>, rs: Seq<ReceiptView>)
    requires
        rs.len() > 0,
    ensures
        owed_grid(s, ps, rs) == owed_grid(s, ps, rs.drop_last()) + owed_across(s, ps, rs.last()),
    decreases ps.len(),
{
    if ps.len() > 0 {
        lemma_owed_grid_step(s, ps.drop_last(), rs);
    }
}

/// Over no receipts nobody owes anything.
proof fn lemma_owed_grid_empty(s: LedgerView, ps: Seq<ParticipantView>)
    ensures
        owed_grid(s, ps, Seq::<ReceiptView>::empty()) == 0,
    decreases ps.len(),
{
    if ps.len() > 0 {
        lemma_owed_grid_empty(s, ps.drop_last());
    }
}

/// Summed participant by participant or receipt by receipt, what is owed
/// is the same.
proof fn lemma_owed_grid_by_receipt(s: LedgerView, ps: Seq<ParticipantView>, rs: Seq<ReceiptView>)
    requires
        ps == s.participants,
    ensures
        owed_grid(s, ps, rs) == attributed_sum(s, rs),
    decreases rs.len(),
{
    if rs.len() > 0 {
        lemma_owed_grid_by_receipt(s, ps, rs.drop_last());
        lemma_owed_grid_step(s, ps, rs);
        lemma_owed_across(s, ps, rs.last());
    } else {
        assert(rs =~= Seq::<ReceiptView>::empty());
        lemma_owed_grid_empty(s, ps);
    }
}

/// The totals of some participants are what they owe for all receipts.
proof fn lemma_total_over_is_grid(s: LedgerView, ps: Seq<ParticipantView>)
    ensures
        total_over(s, ps) == owed_grid(s, ps, s.receipts),
    decreases ps.len(),
{
    if ps.len() > 0 {
        lemma_total_over_is_grid(s, ps.drop_last());
        lemma_breakdown(s, ps.last().id, s.receipts);
    }
}

/// A participant's total is the sum of what they owe receipt by receipt.
pub proof fn lemma_participant_total(s: LedgerView, pid: u128)
    ensures
        participant_total(s, pid) == owed_sum(s, pid, s.receipts),
{
    lemma_breakdown(s, pid, s.receipts);
}

/// The grand total, which sums the participants' totals, is also the sum
/// over the receipts of what their sharers owe for them.
pub proof fn lemma_grand_total_by_receipt(s: LedgerView)
    ensures
        grand_total(s) == attributed_sum(s, s.receipts),
{
    lemma_total_over_is_grid(s, s.participants);
    lemma_owed_grid_by_receipt(s, s.participants, s.receipts);
}

/// A receipt has no sharers among `ps` exactly if none of `ps` shares in
/// it, and never more sharers than there are participants.
pub proof fn lemma_no_sharers(ps: Seq<ParticipantView>, m: Map<u128, Set<u128>>, rid: u128)
    ensures
        count_sharers(ps, m, rid) == 0 <==> (forall|i: int|
            0 <= i < ps.len() ==> !assigned(m, #[trigger] ps[i].id, rid)),
        count_sharers(ps, m, rid) <= ps.len(),
    decreases ps.len(),
{
    if ps.len() > 0 {
        lemma_no_sharers(ps.drop_last(), m, rid);
        if count_sharers(ps, m, rid) == 0 {
            assert forall|i: int| 0 <= i < ps.len() implies !assigned(
                m,
                #[trigger] ps[i].id,
                rid,
            ) by {
                if i < ps.len() - 1 {
                    assert(ps.drop_last()[i] == ps[i]);
                }
            }
        } else {
            if forall|i: int| 0 <= i < ps.len() ==> !assigned(m, #[trigger] ps[i].id, rid) {
                assert forall|i: int| 0 <= i < ps.drop_last().len() implies !assigned(
                    m,
                    #[trigger] ps.drop_last()[i].id,
                    rid,
                ) by {
                    assert(ps.drop_last()[i] == ps[i]);
                }
                assert(!assigned(m, ps[ps.len() - 1].id, rid));
            }
        }
    }
}

} // verus!
