//! The states of a ledger and the steps from one to the next.
//!
//! Every command of the ledger takes a consistent state to a consistent
//! state; the lemmas here prove it step by step.

use crate::assignment::{assigned, everyone_with, everyone_without, toggled};
use crate::entity::{participant_ids, receipt_ids, ParticipantView, ReceiptView};
use crate::error::LedgerError;
use crate::exclusion::without_exclusion;
use crate::shares::LedgerView;
use crate::store::{
    has_participant, has_receipt, lemma_has_participant_push, lemma_has_receipt_push,
    lemma_index_of_distinct, lemma_push_distinct, lemma_without_participant,
    lemma_without_receipt_contains, lemma_without_receipt_ids, lemma_without_receipt_keeps,
    receipt_index, without_participant, without_receipt,
};
use vstd::prelude::*;

verus! {

/// Whether the parts of `s` are in step with each other.
pub open spec fn consistent(s: LedgerView) -> bool {
    &&& participant_ids(s.participants).no_duplicates()
    &&& receipt_ids(s.receipts).no_duplicates()
    &&& forall|pid: u128| #[trigger]
        s.assignments.contains_key(pid) <==> has_participant(s.participants, pid)
    &&& forall|pid: u128, rid: u128| #[trigger]
        assigned(s.assignments, pid, rid) ==> has_receipt(s.receipts, rid)
    &&& forall|parent: u128| #[trigger]
        s.exclusions.contains_key(parent) ==> {
            &&& has_receipt(s.receipts, parent)
            &&& !s.receipts[receipt_index(s.receipts, parent)].exclusion
            &&& s.exclusions[parent].exclusion
            &&& s.receipts.contains(s.exclusions[parent])
        }
}

/// The state without records.
pub open spec fn empty_ledger() -> LedgerView {
    LedgerView {
        participants: Seq::empty(),
        receipts: Seq::empty(),
        assignments: Map::empty(),
        exclusions: Map::empty(),
    }
}

/// The state after the participant `p` has joined: registered as sharing in
/// every receipt that exists at that moment.
pub open spec fn with_participant(s: LedgerView, p: ParticipantView) -> LedgerView {
    LedgerView {
        participants: s.participants.push(p),
        assignments: s.assignments.insert(p.id, receipt_ids(s.receipts).to_set()),
        ..s
    }
}

/// The state after the participant `pid` has left, with their assignments.
pub open spec fn participant_removed(s: LedgerView, pid: u128) -> LedgerView {
    LedgerView {
        participants: without_participant(s.participants, pid),
        assignments: s.assignments.remove(pid),
        ..s
    }
}

/// The state after the participant `pid` has toggled the receipt `rid`.
pub open spec fn assignment_toggled(s: LedgerView, pid: u128, rid: u128) -> LedgerView {
    LedgerView { assignments: toggled(s.assignments, pid, rid), ..s }
}

/// The state after the receipt `r` was added. With `auto` every participant
/// shares in it from the start, without it nobody does.
pub open spec fn with_receipt(s: LedgerView, r: ReceiptView, auto: bool) -> LedgerView {
    LedgerView {
        receipts: s.receipts.push(r),
        assignments: if auto {
            everyone_with(s.assignments, r.id)
        } else {
            s.assignments
        },
        ..s
    }
}

/// The state after the record `e` was added as the exclusion of the receipt
/// `parent`, in place of the exclusion recorded for it before, if any.
pub open spec fn with_exclusion(
    s: LedgerView,
    parent: u128,
    e: ReceiptView,
    auto: bool,
) -> LedgerView {
    LedgerView { exclusions: s.exclusions.insert(parent, e), ..with_receipt(s, e, auto) }
}

/// Whether an exclusion record under the identifier `id` can be added for
/// the receipt `parent`, and if not, why not.
pub open spec fn can_exclude(s: LedgerView, parent: u128, id: u128) -> Result<(), LedgerError> {
    if !has_receipt(s.receipts, parent) {
        Err(LedgerError::UnknownReceipt)
    } else if s.receipts[receipt_index(s.receipts, parent)].exclusion {
        Err(LedgerError::ParentIsExclusion)
    } else if has_receipt(s.receipts, id) {
        Err(LedgerError::DuplicateId)
    } else {
        Ok(())
    }
}

/// The state after the receipt `rid` was removed: nobody shares in it any
/// more, no exclusion is recorded for it, and it is nobody's exclusion.
pub open spec fn receipt_removed(s: LedgerView, rid: u128) -> LedgerView {
    LedgerView {
        participants: s.participants,
        receipts: without_receipt(s.receipts, rid),
        assignments: everyone_without(s.assignments, rid),
        exclusions: without_exclusion(s.exclusions, rid).remove(rid),
    }
}

/// Joining keeps the state consistent.
pub proof fn lemma_with_participant_consistent(s: LedgerView, p: ParticipantView)
    requires
        consistent(s),
        !has_participant(s.participants, p.id),
    ensures
        consistent(with_participant(s, p)),
{
    let t = with_participant(s, p);
    lemma_has_participant_push(s.participants, p);
    lemma_push_distinct(participant_ids(s.participants), p.id);
    assert forall|pid: u128| #[trigger]
        t.assignments.contains_key(pid) <==> has_participant(t.participants, pid) by {
        assert(s.assignments.contains_key(pid) <==> has_participant(s.participants, pid));
    }
    assert forall|pid: u128, rid: u128| #[trigger]
        assigned(t.assignments, pid, rid) implies has_receipt(t.receipts, rid) by {
        if pid != p.id {
            assert(assigned(s.assignments, pid, rid));
        }
    }
}

/// Leaving keeps the state consistent.
pub proof fn lemma_participant_removed_consistent(s: LedgerView, pid: u128)
    requires
        consistent(s),
    ensures
        consistent(participant_removed(s, pid)),
{
    let t = participant_removed(s, pid);
    lemma_without_participant(s.participants, pid);
    assert forall|q: u128| #[trigger]
        t.assignments.contains_key(q) <==> has_participant(t.participants, q) by {
        assert(s.assignments.contains_key(q) <==> has_participant(s.participants, q));
    }
    assert forall|q: u128, rid: u128| #[trigger]
        assigned(t.assignments, q, rid) implies has_receipt(t.receipts, rid) by {
        assert(assigned(s.assignments, q, rid));
    }
}

/// Toggling an assignment to a receipt that exists keeps the state
/// consistent.
pub proof fn lemma_assignment_toggled_consistent(s: LedgerView, pid: u128, rid: u128)
    requires
        consistent(s),
        has_receipt(s.receipts, rid),
    ensures
        consistent(assignment_toggled(s, pid, rid)),
{
    let t = assignment_toggled(s, pid, rid);
    assert forall|q: u128| #[trigger]
        t.assignments.contains_key(q) <==> has_participant(t.participants, q) by {
        assert(s.assignments.contains_key(q) <==> has_participant(s.participants, q));
    }
    assert forall|q: u128, r: u128| #[trigger] assigned(t.assignments, q, r) implies has_receipt(
        t.receipts,
        r,
    ) by {
        if r != rid {
            assert(assigned(s.assignments, q, r));
        }
    }
}

/// A receipt that was there before one was added is still where it was.
proof fn lemma_receipt_index_push(rs: Seq<ReceiptView>, r: ReceiptView, id: u128)
    requires
        receipt_ids(rs).no_duplicates(),
        !has_receipt(rs, r.id),
        has_receipt(rs, id),
    ensures
        receipt_index(rs.push(r), id) == receipt_index(rs, id),
        rs.push(r)[receipt_index(rs, id)] == rs[receipt_index(rs, id)],
{
    lemma_has_receipt_push(rs, r);
    let ids = receipt_ids(rs);
    let after = receipt_ids(rs.push(r));
    let k = receipt_index(rs, id);
    assert(ids[k] == id);
    assert(after[k] == id);
    lemma_push_distinct(ids, r.id);
    lemma_index_of_distinct(after, k);
}

/// Adding a receipt under an identifier that is free keeps the state
/// consistent.
pub proof fn lemma_with_receipt_consistent(s: LedgerView, r: ReceiptView, auto: bool)
    requires
        consistent(s),
        !has_receipt(s.receipts, r.id),
    ensures
        consistent(with_receipt(s, r, auto)),
{
    let t = with_receipt(s, r, auto);
    lemma_has_receipt_push(s.receipts, r);
    lemma_push_distinct(receipt_ids(s.receipts), r.id);
    assert forall|q: u128| #[trigger]
        t.assignments.contains_key(q) <==> has_participant(t.participants, q) by {
        assert(s.assignments.contains_key(q) <==> has_participant(s.participants, q));
    }
    assert forall|q: u128, rid: u128| #[trigger]
        assigned(t.assignments, q, rid) implies has_receipt(t.receipts, rid) by {
        if rid != r.id {
            assert(assigned(s.assignments, q, rid));
        }
    }
    assert forall|parent: u128| #[trigger] t.exclusions.contains_key(parent) implies {
        &&& has_receipt(t.receipts, parent)
        &&& !t.receipts[receipt_index(t.receipts, parent)].exclusion
        &&& t.exclusions[parent].exclusion
        &&& t.receipts.contains(t.exclusions[parent])
    } by {
        assert(s.exclusions.contains_key(parent));
        lemma_receipt_index_push(s.receipts, r, parent);
        let e = s.exclusions[parent];
        let k = choose|k: int| 0 <= k < s.receipts.len() && s.receipts[k] == e;
        assert(t.receipts[k] == e);
    }
}

/// Adding an exclusion record under an identifier that is free, for an
/// ordinary receipt that exists, keeps the state consistent.
pub proof fn lemma_with_exclusion_consistent(
    s: LedgerView,
    parent: u128,
    e: ReceiptView,
    auto: bool,
)
    requires
        consistent(s),
        has_receipt(s.receipts, parent),
        !s.receipts[receipt_index(s.receipts, parent)].exclusion,
        e.exclusion,
        !has_receipt(s.receipts, e.id),
    ensures
        consistent(with_exclusion(s, parent, e, auto)),
{
    let m = with_receipt(s, e, auto);
    let t = with_exclusion(s, parent, e, auto);
    lemma_with_receipt_consistent(s, e, auto);
    lemma_has_receipt_push(s.receipts, e);
    assert forall|q: u128| #[trigger]
        t.assignments.contains_key(q) <==> has_participant(t.participants, q) by {
        assert(m.assignments.contains_key(q) <==> has_participant(m.participants, q));
    }
    assert forall|q: u128, rid: u128| #[trigger]
        assigned(t.assignments, q, rid) implies has_receipt(t.receipts, rid) by {
        assert(assigned(m.assignments, q, rid));
    }
    assert forall|other: u128| #[trigger] t.exclusions.contains_key(other) implies {
        &&& has_receipt(t.receipts, other)
        &&& !t.receipts[receipt_index(t.receipts, other)].exclusion
        &&& t.exclusions[other].exclusion
        &&& t.receipts.contains(t.exclusions[other])
    } by {
        if other == parent {
            lemma_receipt_index_push(s.receipts, e, parent);
            assert(t.receipts[s.receipts.len() as int] == e);
        } else {
            assert(m.exclusions.contains_key(other));
        }
    }
}

/// Removing a receipt keeps the state consistent.
pub proof fn lemma_receipt_removed_consistent(s: LedgerView, rid: u128)
    requires
        consistent(s),
    ensures
        consistent(receipt_removed(s, rid)),
{
    let t = receipt_removed(s, rid);
    lemma_without_receipt_ids(s.receipts, rid);
    assert forall|q: u128| #[trigger]
        t.assignments.contains_key(q) <==> has_participant(t.participants, q) by {
        assert(s.assignments.contains_key(q) <==> has_participant(s.participants, q));
    }
    assert forall|q: u128, r: u128| #[trigger] assigned(t.assignments, q, r) implies has_receipt(
        t.receipts,
        r,
    ) by {
        assert(assigned(s.assignments, q, r));
    }
    assert forall|parent: u128| #[trigger] t.exclusions.contains_key(parent) implies {
        &&& has_receipt(t.receipts, parent)
        &&& !t.receipts[receipt_index(t.receipts, parent)].exclusion
        &&& t.exclusions[parent].exclusion
        &&& t.receipts.contains(t.exclusions[parent])
    } by {
        assert(s.exclusions.contains_key(parent));
        lemma_without_receipt_keeps(s.receipts, rid, parent);
        lemma_without_receipt_contains(s.receipts, rid, s.exclusions[parent]);
    }
}

} // verus!
