//! The ledger as a whole: its commands and its queries.

use crate::assignment::{assigned, everyone_with, everyone_without, AssignmentTable};
use crate::calculator;
use crate::calculator::{ledger_view, share_rows, shares_views, ParticipantShares};
use crate::entity::{
    participant_ids, participant_views, receipt_ids, receipt_views, Participant, ParticipantView,
    Receipt, ReceiptView,
};
use crate::error::LedgerError;
use crate::exclusion::ExclusionLedger;
use crate::export;
use crate::export::{csv_text, txt_text};
use crate::ident::{fresh_id, is_random_uuid};
use crate::shares;
use crate::shares::LedgerView;
use crate::store::{
    has_participant, has_receipt, lemma_index_of_distinct, receipt_index, EntityStore,
};
use crate::transitions::{
    assignment_toggled, can_exclude, consistent, empty_ledger, lemma_assignment_toggled_consistent,
    lemma_participant_removed_consistent, lemma_receipt_removed_consistent,
    lemma_with_exclusion_consistent, lemma_with_participant_consistent,
    lemma_with_receipt_consistent, participant_removed, receipt_removed, with_exclusion,
    with_participant, with_receipt,
};
use vstd::prelude::*;

verus! {

/// A ledger: participants, receipts, who shares in what, and what is carved
/// out of which receipt.
///
/// The ledger keeps its parts in step. Whoever is a participant is
/// registered in the assignment table, and nobody else is. A participant
/// shares only in receipts that exist, and an exclusion is recorded only
/// for an ordinary receipt that exists, with a record that is itself among
/// the receipts. To this end the removal of a receipt takes it out of every
/// participant's set and drops the exclusion entries that refer to it.
pub struct State {
    store: EntityStore,
    assignments: AssignmentTable,
    exclusions: ExclusionLedger,
    auto_assign: bool,
}

impl View for State {
    type V = LedgerView;

    closed spec fn view(&self) -> LedgerView {
        ledger_view(self.store@, self.assignments@, self.exclusions@)
    }
}

impl Default for State {
    /// A ledger without records.
    fn default() -> (state: State)
        ensures
            state.wf(),
            state@ == empty_ledger(),
            !state.auto_assigns(),
    {
        State::new()
    }
}

impl State {
    /// The ledger's invariant.
    pub open spec fn wf(&self) -> bool {
        consistent(self@)
    }

    /// Whether new receipts are shared by every participant from the start.
    pub closed spec fn auto_assigns(&self) -> bool {
        self.auto_assign
    }

    /// A ledger without records, in which new receipts are shared by nobody
    /// until assigned.
    pub fn new() -> (state: State)
        ensures
            state.wf(),
            state@ == empty_ledger(),
            !state.auto_assigns(),
    {
        let state = State {
            store: EntityStore::new(),
            assignments: AssignmentTable::new(),
            exclusions: ExclusionLedger::new(),
            auto_assign: false,
        };
        proof {
            assert(participant_ids(state@.participants) =~= Seq::<u128>::empty());
            assert(receipt_ids(state@.receipts) =~= Seq::<u128>::empty());
        }
        state
    }

    /// The participants, in the order in which they joined.
    pub fn participants(&self) -> (ps: &Vec<Participant>)
        ensures
            participant_views(ps@) == self@.participants,
    {
        self.store.participants()
    }

    /// The receipts, exclusion records among them, in the order in which
    /// they were added.
    pub fn receipts(&self) -> (rs: &Vec<Receipt>)
        ensures
            receipt_views(rs@) == self@.receipts,
    {
        self.store.receipts()
    }

    /// Whether new receipts are shared by every participant from the start.
    pub fn auto_assign(&self) -> (on: bool)
        ensures
            on == self.auto_assigns(),
    {
        self.auto_assign
    }

    /// Sets whether new receipts are shared by every participant from the
    /// start. Existing assignments stay as they are.
    pub fn set_auto_assign(&mut self, on: bool)
        ensures
            final(self)@ == old(self)@,
            final(self).auto_assigns() == on,
    {
        self.auto_assign = on;
    }

    /// Whether the participant `pid` shares in the receipt `rid`.
    pub fn is_assigned(&self, pid: u128, rid: u128) -> (yes: bool)
        ensures
            yes == assigned(self@.assignments, pid, rid),
    {
        self.assignments.is_assigned(pid, rid)
    }

    /// Adds the participant `p`, who from then on shares in every receipt
    /// that exists at that moment. Refused if the identifier is taken.
    pub fn insert_participant(&mut self, p: Participant) -> (done: Result<(), LedgerError>)
        requires
            old(self).wf(),
        ensures
            final(self).wf(),
            final(self).auto_assigns() == old(self).auto_assigns(),
            match done {
                Ok(()) => {
                    &&& !has_participant(old(self)@.participants, p@.id)
                    &&& final(self)@ == with_participant(old(self)@, p@)
                },
                Err(e) => {
                    &&& e == LedgerError::DuplicateId
                    &&& has_participant(old(self)@.participants, p@.id)
                    &&& final(self)@ == old(self)@
                },
            },
    {
        let id = p.id;
        match self.store.insert_participant(p) {
            Err(e) => Err(e),
            Ok(()) => {
                let ids = self.store.receipt_id_list();
                self.assignments.set_default_assignment(id, &ids);
                proof {
                    lemma_with_participant_consistent(old(self)@, p@);
                }
                Ok(())
            },
        }
    }

    /// Adds a participant called `name` under a newly drawn identifier and
    /// returns that identifier. The participant shares in every receipt
    /// that exists at that moment. The draw is random: should it hit an
    /// identifier already in use, nothing is added.
    pub fn add_participant(&mut self, name: String) -> (added: Result<u128, LedgerError>)
        requires
            old(self).wf(),
        ensures
            final(self).wf(),
            final(self).auto_assigns() == old(self).auto_assigns(),
            match added {
                Ok(id) => {
                    &&& is_random_uuid(id)
                    &&& !has_participant(old(self)@.participants, id)
                    &&& final(self)@ == with_participant(
                        old(self)@,
                        ParticipantView { id, name: name@ },
                    )
                },
                Err(e) => e == LedgerError::DuplicateId && final(self)@ == old(self)@,
            },
    {
        let p = Participant::new(name);
        let id = p.id;
        match self.insert_participant(p) {
            Ok(()) => Ok(id),
            Err(e) => Err(e),
        }
    }

    /// Removes the participant `pid` together with all their assignments.
    /// Refused, with nothing changed, if there is no such participant.
    pub fn remove_participant(&mut self, pid: u128) -> (done: Result<(), LedgerError>)
        requires
            old(self).wf(),
        ensures
            final(self).wf(),
            final(self).auto_assigns() == old(self).auto_assigns(),
            match done {
                Ok(()) => {
                    &&& has_participant(old(self)@.participants, pid)
                    &&& final(self)@ == participant_removed(old(self)@, pid)
                },
                Err(e) => {
                    &&& e == LedgerError::UnknownParticipant
                    &&& !has_participant(old(self)@.participants, pid)
                    &&& final(self)@ == old(self)@
                },
            },
    {
        match self.store.remove_participant(pid) {
            None => Err(LedgerError::UnknownParticipant),
            Some(_) => {
                self.assignments.remove_participant(pid);
                proof {
                    lemma_participant_removed_consistent(old(self)@, pid);
                }
                Ok(())
            },
        }
    }

    /// Flips whether the participant `pid` shares in the receipt `rid`.
    /// Refused, with nothing changed, if either does not exist.
    pub fn toggle(&mut self, pid: u128, rid: u128) -> (done: Result<(), LedgerError>)
        requires
            old(self).wf(),
        ensures
            final(self).wf(),
            final(self).auto_assigns() == old(self).auto_assigns(),
            match done {
                Ok(()) => {
                    &&& has_participant(old(self)@.participants, pid)
                    &&& has_receipt(old(self)@.receipts, rid)
                    &&& final(self)@ == assignment_toggled(old(self)@, pid, rid)
                },
                Err(e) => {
                    &&& final(self)@ == old(self)@
                    &&& if has_participant(old(self)@.participants, pid) {
                        e == LedgerError::UnknownReceipt && !has_receipt(old(self)@.receipts, rid)
                    } else {
                        e == LedgerError::UnknownParticipant
                    }
                },
            },
    {
        assert(self@.assignments.contains_key(pid) <==> has_participant(self@.participants, pid));
        if !self.assignments.is_registered(pid) {
            return Err(LedgerError::UnknownParticipant);
        }
        match self.store.find_receipt(rid) {
            None => Err(LedgerError::UnknownReceipt),
            Some(j) => {
                assert(receipt_ids(self@.receipts)[j as int] == rid);
                self.assignments.toggle(pid, rid);
                proof {
                    lemma_assignment_toggled_consistent(old(self)@, pid, rid);
                }
                Ok(())
            },
        }
    }

    /// Adds an ordinary receipt under the identifier `id`. If new receipts
    /// are shared from the start, every participant shares in it; else
    /// nobody does yet. Refused if the identifier is taken.
    pub fn insert_receipt(
        &mut self,
        id: u128,
        label: String,
        amount: u64,
    ) -> (done: Result<(), LedgerError>)
        requires
            old(self).wf(),
        ensures
            final(self).wf(),
            final(self).auto_assigns() == old(self).auto_assigns(),
            match done {
                Ok(()) => {
                    &&& !has_receipt(old(self)@.receipts, id)
                    &&& final(self)@ == with_receipt(
                        old(self)@,
                        ReceiptView { label: label@, total: amount as nat, id, exclusion: false },
                        old(self).auto_assigns(),
                    )
                },
                Err(e) => {
                    &&& e == LedgerError::DuplicateId
                    &&& has_receipt(old(self)@.receipts, id)
                    &&& final(self)@ == old(self)@
                },
            },
    {
        let r = Receipt::with_id(id, label, amount, false);
        match self.store.insert_receipt(r) {
            Err(e) => Err(e),
            Ok(()) => {
                if self.auto_assign {
                    let ps = self.store.participants();
                    assert forall|pid: u128| #[trigger]
                        self.assignments@.contains_key(pid) <==> has_participant(
                            participant_views(ps@),
                            pid,
                        ) by {
                        assert(old(self)@.assignments.contains_key(pid) <==> has_participant(
                            old(self)@.participants,
                            pid,
                        ));
                    }
                    assign_everyone(&mut self.assignments, ps, id);
                }
                proof {
                    lemma_with_receipt_consistent(old(self)@, r@, old(self).auto_assigns());
                }
                Ok(())
            },
        }
    }

    /// Adds an ordinary receipt under a newly drawn identifier and returns
    /// that identifier. The draw is random: should it hit an identifier
    /// already in use, nothing is added.
    pub fn add_receipt(&mut self, label: String, amount: u64) -> (added: Result<u128, LedgerError>)
        requires
            old(self).wf(),
        ensures
            final(self).wf(),
            final(self).auto_assigns() == old(self).auto_assigns(),
            match added {
                Ok(id) => {
                    &&& is_random_uuid(id)
                    &&& !has_receipt(old(self)@.receipts, id)
                    &&& final(self)@ == with_receipt(
                        old(self)@,
                        ReceiptView { label: label@, total: amount as nat, id, exclusion: false },
                        old(self).auto_assigns(),
                    )
                },
                Err(e) => e == LedgerError::DuplicateId && final(self)@ == old(self)@,
            },
    {
        let id = fresh_id();
        match self.insert_receipt(id, label, amount) {
            Ok(()) => Ok(id),
            Err(e) => Err(e),
        }
    }

    /// Carves `amount` out of the ordinary receipt `parent`: adds an
    /// exclusion record under the identifier `id` to the receipts and
    /// records it as the exclusion of `parent`, in place of the one recorded
    /// before, if any. The earlier record stays among the receipts but no
    /// longer reduces anything.
    ///
    /// Refused, with nothing changed, if `parent` does not exist, if it is
    /// itself an exclusion record, or if the identifier is taken.
    pub fn insert_exclusion(
        &mut self,
        parent: u128,
        id: u128,
        label: String,
        amount: u64,
    ) -> (done: Result<(), LedgerError>)
        requires
            old(self).wf(),
        ensures
            final(self).wf(),
            final(self).auto_assigns() == old(self).auto_assigns(),
            match done {
                Ok(()) => {
                    &&& can_exclude(old(self)@, parent, id) is Ok
                    &&& final(self)@ == with_exclusion(
                        old(self)@,
                        parent,
                        ReceiptView { label: label@, total: amount as nat, id, exclusion: true },
                        old(self).auto_assigns(),
                    )
                },
                Err(e) => {
                    &&& can_exclude(old(self)@, parent, id) == Err::<(), LedgerError>(e)
                    &&& final(self)@ == old(self)@
                },
            },
    {
        match self.store.find_receipt(parent) {
            None => {
                return Err(LedgerError::UnknownReceipt);
            },
            Some(j) => {
                proof {
                    assert(receipt_ids(self@.receipts)[j as int] == parent);
                    lemma_index_of_distinct(receipt_ids(self@.receipts), j as int);
                }
                let rs = self.store.receipts();
                assert(rs@[j as int]@ == self@.receipts[j as int]);
                if rs[j].exclusion {
                    return Err(LedgerError::ParentIsExclusion);
                }
            },
        }
        let e = Receipt::with_id(id, label, amount, true);
        let copy = e.clone();
        match self.store.insert_receipt(e) {
            Err(err) => Err(err),
            Ok(()) => {
                self.exclusions.exclude(parent, copy);
                if self.auto_assign {
                    let ps = self.store.participants();
                    assert forall|pid: u128| #[trigger]
                        self.assignments@.contains_key(pid) <==> has_participant(
                            participant_views(ps@),
                            pid,
                        ) by {
                        assert(old(self)@.assignments.contains_key(pid) <==> has_participant(
                            old(self)@.participants,
                            pid,
                        ));
                    }
                    assign_everyone(&mut self.assignments, ps, id);
                }
                proof {
                    lemma_with_exclusion_consistent(
                        old(self)@,
                        parent,
                        e@,
                        old(self).auto_assigns(),
                    );
                }
                Ok(())
            },
        }
    }

    /// Carves `amount` out of the ordinary receipt `parent` with an
    /// exclusion record under a newly drawn identifier, and returns that
    /// identifier. The draw is random: should it hit an identifier already
    /// in use, nothing is added.
    pub fn add_exclusion(
        &mut self,
        parent: u128,
        label: String,
        amount: u64,
    ) -> (added: Result<u128, LedgerError>)
        requires
            old(self).wf(),
        ensures
            final(self).wf(),
            final(self).auto_assigns() == old(self).auto_assigns(),
            match added {
                Ok(id) => {
                    &&& is_random_uuid(id)
                    &&& can_exclude(old(self)@, parent, id) is Ok
                    &&& final(self)@ == with_exclusion(
                        old(self)@,
                        parent,
                        ReceiptView { label: label@, total: amount as nat, id, exclusion: true },
                        old(self).auto_assigns(),
                    )
                },
                Err(e) => {
                    &&& final(self)@ == old(self)@
                    &&& e == LedgerError::UnknownReceipt <==> !has_receipt(
                        old(self)@.receipts,
                        parent,
                    )
                    &&& e == LedgerError::ParentIsExclusion <==> has_receipt(
                        old(self)@.receipts,
                        parent,
                    ) && old(self)@.receipts[receipt_index(old(self)@.receipts, parent)].exclusion
                    &&& e == LedgerError::UnknownReceipt || e == LedgerError::ParentIsExclusion || e
                        == LedgerError::DuplicateId
                },
            },
    {
        let id = fresh_id();
        match self.insert_exclusion(parent, id, label, amount) {
            Ok(()) => Ok(id),
            Err(e) => Err(e),
        }
    }

    /// Removes the receipt `rid`. Nobody shares in it afterwards. If it was
    /// an exclusion record, the entry that held it goes in the same step,
    /// so that its parent is shared in full again; if an exclusion was
    /// recorded for it, that entry goes too, while the exclusion record
    /// itself stays among the receipts.
    ///
    /// Refused, with nothing changed, if there is no such receipt.
    pub fn remove_receipt(&mut self, rid: u128) -> (done: Result<(), LedgerError>)
        requires
            old(self).wf(),
        ensures
            final(self).wf(),
            final(self).auto_assigns() == old(self).auto_assigns(),
            match done {
                Ok(()) => {
                    &&& has_receipt(old(self)@.receipts, rid)
                    &&& final(self)@ == receipt_removed(old(self)@, rid)
                },
                Err(e) => {
                    &&& e == LedgerError::UnknownReceipt
                    &&& !has_receipt(old(self)@.receipts, rid)
                    &&& final(self)@ == old(self)@
                },
            },
    {
        match self.store.remove_receipt(rid) {
            None => Err(LedgerError::UnknownReceipt),
            Some(_) => {
                self.exclusions.remove_by_exclusion_id(rid);
                self.exclusions.remove_parent(rid);
                let ps = self.store.participants();
                assert forall|pid: u128| #[trigger]
                    self.assignments@.contains_key(pid) <==> has_participant(
                        participant_views(ps@),
                        pid,
                    ) by {
                    assert(old(self)@.assignments.contains_key(pid) <==> has_participant(
                        old(self)@.participants,
                        pid,
                    ));
                }
                unassign_everyone(&mut self.assignments, ps, rid);
                proof {
                    lemma_receipt_removed_consistent(old(self)@, rid);
                }
                Ok(())
            },
        }
    }
}

impl State {
    /// What every participant owes, label by label and in all, in the order
    /// of the participants. Computed anew from the current state.
    pub fn share_map(&self) -> (rows: Vec<ParticipantShares>)
        ensures
            shares_views(rows@) == share_rows(self@),
            forall|k: int|
                0 <= k < rows@.len() ==> {
                    &&& shares::distinct_labels((#[trigger] rows@[k])@.items)
                    &&& rows@[k].total == shares::bucket_sum(rows@[k]@.items)
                },
    {
        calculator::share_map(&self.store, &self.assignments, &self.exclusions)
    }

    /// What all participants owe together.
    pub fn total(&self) -> (amount: u128)
        ensures
            amount == shares::grand_total(self@),
    {
        calculator::grand_total(&self.store, &self.assignments, &self.exclusions)
    }

    /// What of the receipts nobody owes: what there is to share of the
    /// receipts that nobody shares, and the cents that do not divide evenly
    /// among the sharers of the others. With the grand total it makes up
    /// all that there is to share.
    pub fn unattributed(&self) -> (amount: u128)
        ensures
            amount == shares::unattributed_sum(self@, self@.receipts),
            amount + shares::grand_total(self@) == shares::shareable_sum(self@, self@.receipts),
    {
        proof {
            shares::lemma_nothing_lost(self@, self@.receipts);
            shares::lemma_grand_total_by_receipt(self@);
        }
        calculator::unattributed_total(&self.store, &self.assignments, &self.exclusions)
    }

    /// The exclusions that reduce the receipt `rid`, each as its label and
    /// its amount: the one recorded for it, or none.
    pub fn exclusions_of(&self, rid: u128) -> (list: Vec<(String, u64)>)
        ensures
            list@.len() == if self@.exclusions.contains_key(rid) {
                1nat
            } else {
                0nat
            },
            self@.exclusions.contains_key(rid) ==> list@[0].0@ == self@.exclusions[rid].label
                && list@[0].1 == self@.exclusions[rid].total,
    {
        let mut list: Vec<(String, u64)> = Vec::new();
        if let Some(e) = self.exclusions.exclusion_of(rid) {
            list.push((e.label.clone(), e.total));
        }
        list
    }

    /// The share report as CSV: a header, for each participant a line with
    /// name and total and a line for each entry of their breakdown, and a
    /// last line with the grand total.
    pub fn export_csv(&self) -> (text: String)
        ensures
            text@ == csv_text(share_rows(self@), shares::grand_total(self@)),
    {
        let rows = self.share_map();
        let grand: u128 = self.total();
        export::export_csv(&rows, grand)
    }

    /// The share report as text in three columns of fixed width.
    pub fn export_txt(&self) -> (text: String)
        ensures
            text@ == txt_text(share_rows(self@), shares::grand_total(self@)),
    {
        let rows = self.share_map();
        let grand: u128 = self.total();
        export::export_txt(&rows, grand)
    }
}

impl Participant {
    /// What this participant owes in all in the ledger `state`.
    pub fn share(&self, state: &State) -> (amount: u128)
        ensures
            amount == shares::participant_total(state@, self@.id),
    {
        calculator::participant_share(&state.store, &state.assignments, &state.exclusions, self.id)
    }
}

impl Receipt {
    /// What of this receipt is there to share in the ledger `state`: its
    /// total less the amount carved out of it, and never less than nothing.
    /// An exclusion record stands for its own total.
    pub fn total(&self, state: &State) -> (amount: u64)
        ensures
            amount == shares::shareable_total(state@.exclusions, self@),
    {
        calculator::shareable_total(self, &state.exclusions)
    }
}

/// Makes every one of `participants` share in the receipt `rid`.
fn assign_everyone(table: &mut AssignmentTable, participants: &Vec<Participant>, rid: u128)
    requires
        forall|pid: u128| #[trigger]
            old(table)@.contains_key(pid) <==> has_participant(
                participant_views(participants@),
                pid,
            ),
    ensures
        final(table)@ == everyone_with(old(table)@, rid),
{
    let ghost ids = participant_ids(participant_views(participants@));
    let mut i: usize = 0;
    while i < participants.len()
        invariant
            i <= participants.len(),
            ids == participant_ids(participant_views(participants@)),
            forall|pid: u128| #[trigger] old(table)@.contains_key(pid) <==> ids.contains(pid),
            table@ == Map::new(
                |pid: u128| old(table)@.contains_key(pid),
                |pid: u128|
                    if ids.take(i as int).contains(pid) {
                        old(table)@[pid].insert(rid)
                    } else {
                        old(table)@[pid]
                    },
            ),
        decreases participants.len() - i,
    {
        let pid = participants[i].id;
        proof {
            assert(ids[i as int] == pid);
            assert(old(table)@.contains_key(pid));
        }
        table.assign(pid, rid);
        proof {
            let done = ids.take(i as int);
            let next = ids.take(i + 1);
            assert(next =~= done.push(pid));
            assert forall|q: u128| next.contains(q) <==> done.contains(q) || q == pid by {
                if done.contains(q) {
                    let k = choose|k: int| 0 <= k < done.len() && done[k] == q;
                    assert(next[k] == q);
                }
                assert(next[i as int] == pid);
            }
            assert(table@ =~~= Map::new(
                |q: u128| old(table)@.contains_key(q),
                |q: u128|
                    if next.contains(q) {
                        old(table)@[q].insert(rid)
                    } else {
                        old(table)@[q]
                    },
            ));
        }
        i += 1;
    }
    proof {
        assert(ids.take(i as int) =~= ids);
        assert(table@ =~= everyone_with(old(table)@, rid));
    }
}

/// Makes every one of `participants` no longer share in the receipt `rid`.
fn unassign_everyone(table: &mut AssignmentTable, participants: &Vec<Participant>, rid: u128)
    requires
        forall|pid: u128| #[trigger]
            old(table)@.contains_key(pid) <==> has_participant(
                participant_views(participants@),
                pid,
            ),
    ensures
        final(table)@ == everyone_without(old(table)@, rid),
{
    let ghost ids = participant_ids(participant_views(participants@));
    let mut i: usize = 0;
    while i < participants.len()
        invariant
            i <= participants.len(),
            ids == participant_ids(participant_views(participants@)),
            forall|pid: u128| #[trigger] old(table)@.contains_key(pid) <==> ids.contains(pid),
            table@ == Map::new(
                |pid: u128| old(table)@.contains_key(pid),
                |pid: u128|
                    if ids.take(i as int).contains(pid) {
                        old(table)@[pid].remove(rid)
                    } else {
                        old(table)@[pid]
                    },
            ),
        decreases participants.len() - i,
    {
        let pid = participants[i].id;
        proof {
            assert(ids[i as int] == pid);
            assert(old(table)@.contains_key(pid));
        }
        table.unassign(pid, rid);
        proof {
            let done = ids.take(i as int);
            let next = ids.take(i + 1);
            assert(next =~= done.push(pid));
            assert forall|q: u128| next.contains(q) <==> done.contains(q) || q == pid by {
                if done.contains(q) {
                    let k = choose|k: int| 0 <= k < done.len() && done[k] == q;
                    assert(next[k] == q);
                }
                assert(next[i as int] == pid);
            }
            assert(table@ =~~= Map::new(
                |q: u128| old(table)@.contains_key(q),
                |q: u128|
                    if next.contains(q) {
                        old(table)@[q].remove(rid)
                    } else {
                        old(table)@[q]
                    },
            ));
        }
        i += 1;
    }
    proof {
        assert(ids.take(i as int) =~= ids);
        assert(table@ =~= everyone_without(old(table)@, rid));
    }
}

} // verus!
