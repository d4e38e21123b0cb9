//! The entity store: the participants and the receipts of a ledger.

use crate::entity::{
    participant_ids, participant_views, receipt_ids, receipt_views, Participant, ParticipantView,
    Receipt, ReceiptView,
};
use crate::error::LedgerError;
use crate::ident::is_random_uuid;
use vstd::prelude::*;

verus! {

/// Owns the participant and receipt records, each kind in the order in which
/// it was added. No two participants share an identifier, and no two
/// receipts do.
pub struct EntityStore {
    participants: Vec<Participant>,
    receipts: Vec<Receipt>,
}

/// What an [`EntityStore`] holds.
pub struct StoreView {
    pub participants: Seq<ParticipantView>,
    pub receipts: Seq<ReceiptView>,
}

/// Whether a participant in `ps` has the identifier `id`.
pub open spec fn has_participant(ps: Seq<ParticipantView>, id: u128) -> bool {
    participant_ids(ps).contains(id)
}

/// Whether a receipt in `rs` has the identifier `id`.
pub open spec fn has_receipt(rs: Seq<ReceiptView>, id: u128) -> bool {
    receipt_ids(rs).contains(id)
}

/// Where the participant `id` stands in `ps`.
pub open spec fn participant_index(ps: Seq<ParticipantView>, id: u128) -> int
    recommends
        has_participant(ps, id),
{
    participant_ids(ps).index_of(id)
}

/// Where the receipt `id` stands in `rs`.
pub open spec fn receipt_index(rs: Seq<ReceiptView>, id: u128) -> int
    recommends
        has_receipt(rs, id),
{
    receipt_ids(rs).index_of(id)
}

/// `ps` without the participant `id`; `ps` itself if there is none.
pub open spec fn without_participant(ps: Seq<ParticipantView>, id: u128) -> Seq<ParticipantView> {
    if has_participant(ps, id) {
        ps.remove(participant_index(ps, id))
    } else {
        ps
    }
}

/// `rs` without the receipt `id`; `rs` itself if there is none.
pub open spec fn without_receipt(rs: Seq<ReceiptView>, id: u128) -> Seq<ReceiptView> {
    if has_receipt(rs, id) {
        rs.remove(receipt_index(rs, id))
    } else {
        rs
    }
}

/// In a sequence of distinct identifiers, an identifier is found at the one
/// place where it stands.
pub proof fn lemma_index_of_distinct(ids: Seq<u128>, i: int)
    requires
        ids.no_duplicates(),
        0 <= i < ids.len(),
    ensures
        ids.contains(ids[i]),
        ids.index_of(ids[i]) == i,
{
    let j = ids.index_of(ids[i]);
    assert(ids.contains(ids[i]));
    assert(0 <= j < ids.len() && ids[j] == ids[i]);
}

/// Removing one of a sequence of distinct identifiers leaves the others,
/// still distinct.
pub proof fn lemma_remove_distinct(ids: Seq<u128>, i: int)
    requires
        ids.no_duplicates(),
        0 <= i < ids.len(),
    ensures
        ids.remove(i).no_duplicates(),
        !ids.remove(i).contains(ids[i]),
        forall|x: u128| x != ids[i] ==> (ids.remove(i).contains(x) <==> ids.contains(x)),
{
    let rest = ids.remove(i);
    assert forall|a: int, b: int|
        0 <= a < rest.len() && 0 <= b < rest.len() && a != b implies rest[a] != rest[b] by {
        let a0 = if a < i { a } else { a + 1 };
        let b0 = if b < i { b } else { b + 1 };
        assert(rest[a] == ids[a0] && rest[b] == ids[b0]);
    }
    assert forall|x: u128| x != ids[i] implies (rest.contains(x) <==> ids.contains(x)) by {
        if rest.contains(x) {
            let a = choose|a: int| 0 <= a < rest.len() && rest[a] == x;
            let a0 = if a < i { a } else { a + 1 };
            assert(ids[a0] == x);
        }
        if ids.contains(x) {
            let a0 = choose|a0: int| 0 <= a0 < ids.len() && ids[a0] == x;
            let a = if a0 < i { a0 } else { a0 - 1 };
            assert(rest[a] == x);
        }
    }
    if rest.contains(ids[i]) {
        let a = choose|a: int| 0 <= a < rest.len() && rest[a] == ids[i];
        let a0 = if a < i { a } else { a + 1 };
        assert(ids[a0] == ids[i]);
    }
}

/// A sequence of distinct identifiers stays so when one that is not in it
/// is put at its end.
pub proof fn lemma_push_distinct(ids: Seq<u128>, id: u128)
    requires
        ids.no_duplicates(),
        !ids.contains(id),
    ensures
        ids.push(id).no_duplicates(),
{
    let after = ids.push(id);
    assert forall|a: int, b: int|
        0 <= a < after.len() && 0 <= b < after.len() && a != b implies after[a] != after[b] by {
        if a < ids.len() {
            assert(ids[a] == after[a]);
        }
        if b < ids.len() {
            assert(ids[b] == after[b]);
        }
    }
}

/// After one more participant the old ones and the new one are there.
pub proof fn lemma_has_participant_push(ps: Seq<ParticipantView>, p: ParticipantView)
    ensures
        participant_ids(ps.push(p)) == participant_ids(ps).push(p.id),
        forall|id: u128|
            has_participant(ps.push(p), id) <==> has_participant(ps, id) || id == p.id,
{
    let ids = participant_ids(ps);
    let after = participant_ids(ps.push(p));
    assert(after =~= ids.push(p.id));
    assert forall|id: u128| has_participant(ps.push(p), id) <==> has_participant(ps, id) || id
        == p.id by {
        if ids.contains(id) {
            let k = choose|k: int| 0 <= k < ids.len() && ids[k] == id;
            assert(after[k] == id);
        }
        if id == p.id {
            assert(after[ids.len() as int] == id);
        }
    }
}

/// After one more receipt the old ones and the new one are there.
pub proof fn lemma_has_receipt_push(rs: Seq<ReceiptView>, r: ReceiptView)
    ensures
        receipt_ids(rs.push(r)) == receipt_ids(rs).push(r.id),
        forall|id: u128| has_receipt(rs.push(r), id) <==> has_receipt(rs, id) || id == r.id,
{
    let ids = receipt_ids(rs);
    let after = receipt_ids(rs.push(r));
    assert(after =~= ids.push(r.id));
    assert forall|id: u128| has_receipt(rs.push(r), id) <==> has_receipt(rs, id) || id
        == r.id by {
        if ids.contains(id) {
            let k = choose|k: int| 0 <= k < ids.len() && ids[k] == id;
            assert(after[k] == id);
        }
        if id == r.id {
            assert(after[ids.len() as int] == id);
        }
    }
}

/// Without a participant the others are there, and that one is not.
pub proof fn lemma_without_participant(ps: Seq<ParticipantView>, gone: u128)
    requires
        participant_ids(ps).no_duplicates(),
    ensures
        participant_ids(without_participant(ps, gone)).no_duplicates(),
        forall|id: u128|
            has_participant(without_participant(ps, gone), id) <==> has_participant(ps, id) && id
                != gone,
{
    if has_participant(ps, gone) {
        let i = participant_index(ps, gone);
        lemma_remove_distinct(participant_ids(ps), i);
        assert(participant_ids(ps.remove(i)) =~= participant_ids(ps).remove(i));
    }
}

/// Without a receipt the others are there, and that one is not.
pub proof fn lemma_without_receipt_ids(rs: Seq<ReceiptView>, gone: u128)
    requires
        receipt_ids(rs).no_duplicates(),
    ensures
        receipt_ids(without_receipt(rs, gone)).no_duplicates(),
        forall|id: u128|
            has_receipt(without_receipt(rs, gone), id) <==> has_receipt(rs, id) && id != gone,
{
    if has_receipt(rs, gone) {
        let i = receipt_index(rs, gone);
        lemma_remove_distinct(receipt_ids(rs), i);
        assert(receipt_ids(rs.remove(i)) =~= receipt_ids(rs).remove(i));
    }
}

/// Without a receipt each of the others is the record that it was.
pub proof fn lemma_without_receipt_keeps(rs: Seq<ReceiptView>, gone: u128, id: u128)
    requires
        receipt_ids(rs).no_duplicates(),
        has_receipt(rs, id),
        id != gone,
    ensures
        has_receipt(without_receipt(rs, gone), id),
        without_receipt(rs, gone)[receipt_index(without_receipt(rs, gone), id)] == rs[receipt_index(
            rs,
            id,
        )],
{
    lemma_without_receipt_ids(rs, gone);
    if has_receipt(rs, gone) {
        let rest = without_receipt(rs, gone);
        let ids = receipt_ids(rs);
        let i = receipt_index(rs, gone);
        let k = receipt_index(rs, id);
        let k1 = if k < i { k } else { k - 1 };
        assert(ids[k] == id);
        assert(ids[i] == gone);
        assert(rest[k1] == rs[k]);
        assert(receipt_ids(rest)[k1] == id);
        lemma_index_of_distinct(receipt_ids(rest), k1);
    }
}

/// Without a receipt the records of the others are there, and no record
/// with its identifier.
pub proof fn lemma_without_receipt_contains(rs: Seq<ReceiptView>, gone: u128, r: ReceiptView)
    requires
        receipt_ids(rs).no_duplicates(),
    ensures
        without_receipt(rs, gone).contains(r) <==> rs.contains(r) && r.id != gone,
{
    let rest = without_receipt(rs, gone);
    let ids = receipt_ids(rs);
    if has_receipt(rs, gone) {
        let i = receipt_index(rs, gone);
        assert(ids[i] == gone);
        if rest.contains(r) {
            let k1 = choose|k1: int| 0 <= k1 < rest.len() && rest[k1] == r;
            let k = if k1 < i { k1 } else { k1 + 1 };
            assert(rs[k] == r);
            assert(ids[k] == r.id);
        }
        if rs.contains(r) && r.id != gone {
            let k = choose|k: int| 0 <= k < rs.len() && rs[k] == r;
            assert(ids[k] == r.id);
            let k1 = if k < i { k } else { k - 1 };
            assert(rest[k1] == r);
        }
    } else {
        if rs.contains(r) {
            let k = choose|k: int| 0 <= k < rs.len() && rs[k] == r;
            assert(ids[k] == r.id);
        }
    }
}

impl View for EntityStore {
    type V = StoreView;

    closed spec fn view(&self) -> StoreView {
        StoreView {
            participants: participant_views(self.participants@),
            receipts: receipt_views(self.receipts@),
        }
    }
}

impl EntityStore {
    /// The store's invariant: identifiers are unique within each kind.
    pub open spec fn wf(&self) -> bool {
        &&& participant_ids(self@.participants).no_duplicates()
        &&& receipt_ids(self@.receipts).no_duplicates()
    }

    /// A store without records.
    pub fn new() -> (store: EntityStore)
        ensures
            store.wf(),
            store@.participants == Seq::<ParticipantView>::empty(),
            store@.receipts == Seq::<ReceiptView>::empty(),
    {
        let store = EntityStore { participants: Vec::new(), receipts: Vec::new() };
        assert(store@.participants =~= Seq::<ParticipantView>::empty());
        assert(store@.receipts =~= Seq::<ReceiptView>::empty());
        store
    }

    /// The participants, in the order in which they were added.
    pub fn participants(&self) -> (ps: &Vec<Participant>)
        ensures
            participant_views(ps@) == self@.participants,
    {
        &self.participants
    }

    /// The receipts, in the order in which they were added.
    pub fn receipts(&self) -> (rs: &Vec<Receipt>)
        ensures
            receipt_views(rs@) == self@.receipts,
    {
        &self.receipts
    }

    /// The identifiers of the receipts, in the order of the receipts.
    pub fn receipt_id_list(&self) -> (ids: Vec<u128>)
        ensures
            ids@ == receipt_ids(self@.receipts),
    {
        let mut ids: Vec<u128> = Vec::new();
        let mut j: usize = 0;
        while j < self.receipts.len()
            invariant
                j <= self.receipts.len(),
                ids@ == receipt_ids(self@.receipts).take(j as int),
            decreases self.receipts.len() - j,
        {
            ids.push(self.receipts[j].id);
            assert(ids@ =~= receipt_ids(self@.receipts).take(j + 1));
            j += 1;
        }
        assert(ids@ =~= receipt_ids(self@.receipts));
        ids
    }

    /// The first place at which a participant has the identifier `id`, if
    /// there is one.
    pub fn find_participant(&self, id: u128) -> (place: Option<usize>)
        ensures
            match place {
                Some(i) => {
                    &&& i < self@.participants.len()
                    &&& self@.participants[i as int].id == id
                    &&& forall|j: int| 0 <= j < i ==> self@.participants[j].id != id
                },
                None => !has_participant(self@.participants, id),
            },
    {
        let mut i: usize = 0;
        while i < self.participants.len()
            invariant
                i <= self.participants.len(),
                forall|j: int| 0 <= j < i ==> self.participants@[j].id != id,
            decreases self.participants.len() - i,
        {
            if self.participants[i].id == id {
                return Some(i);
            }
            i += 1;
        }
        None
    }

    /// The first place at which a receipt has the identifier `id`, if there
    /// is one.
    pub fn find_receipt(&self, id: u128) -> (place: Option<usize>)
        ensures
            match place {
                Some(i) => {
                    &&& i < self@.receipts.len()
                    &&& self@.receipts[i as int].id == id
                    &&& forall|j: int| 0 <= j < i ==> self@.receipts[j].id != id
                },
                None => !has_receipt(self@.receipts, id),
            },
    {
        let mut i: usize = 0;
        while i < self.receipts.len()
            invariant
                i <= self.receipts.len(),
                forall|j: int| 0 <= j < i ==> self.receipts@[j].id != id,
            decreases self.receipts.len() - i,
        {
            if self.receipts[i].id == id {
                return Some(i);
            }
            i += 1;
        }
        None
    }

    /// Adds the participant `p` at the end, unless its identifier is taken.
    pub fn insert_participant(&mut self, p: Participant) -> (done: Result<(), LedgerError>)
        requires
            old(self).wf(),
        ensures
            final(self).wf(),
            final(self)@.receipts == old(self)@.receipts,
            match done {
                Ok(()) => {
                    &&& !has_participant(old(self)@.participants, p@.id)
                    &&& final(self)@.participants == old(self)@.participants.push(p@)
                },
                Err(e) => {
                    &&& e == LedgerError::DuplicateId
                    &&& has_participant(old(self)@.participants, p@.id)
                    &&& final(self)@ == old(self)@
                },
            },
    {
        if let Some(i) = self.find_participant(p.id) {
            assert(participant_ids(self@.participants)[i as int] == p@.id);
            return Err(LedgerError::DuplicateId);
        }
        let ghost before = self@.participants;
        let ghost added = p@;
        self.participants.push(p);
        proof {
            assert(self@.participants =~= before.push(added));
            lemma_has_participant_push(before, added);
            lemma_push_distinct(participant_ids(before), added.id);
        }
        Ok(())
    }

    /// Adds the receipt `r` at the end, unless its identifier is taken.
    pub fn insert_receipt(&mut self, r: Receipt) -> (done: Result<(), LedgerError>)
        requires
            old(self).wf(),
        ensures
            final(self).wf(),
            final(self)@.participants == old(self)@.participants,
            match done {
                Ok(()) => {
                    &&& !has_receipt(old(self)@.receipts, r@.id)
                    &&& final(self)@.receipts == old(self)@.receipts.push(r@)
                },
                Err(e) => {
                    &&& e == LedgerError::DuplicateId
                    &&& has_receipt(old(self)@.receipts, r@.id)
                    &&& final(self)@ == old(self)@
                },
            },
    {
        if let Some(i) = self.find_receipt(r.id) {
            assert(receipt_ids(self@.receipts)[i as int] == r@.id);
            return Err(LedgerError::DuplicateId);
        }
        let ghost before = self@.receipts;
        let ghost added = r@;
        self.receipts.push(r);
        proof {
            assert(self@.receipts =~= before.push(added));
            lemma_has_receipt_push(before, added);
            lemma_push_distinct(receipt_ids(before), added.id);
        }
        Ok(())
    }

    /// Adds a participant called `name` under a newly drawn identifier and
    /// returns that identifier. The draw is random: should it hit an
    /// identifier already in use, nothing is added.
    pub fn add_participant(&mut self, name: String) -> (added: Result<u128, LedgerError>)
        requires
            old(self).wf(),
        ensures
            final(self).wf(),
            final(self)@.receipts == old(self)@.receipts,
            match added {
                Ok(id) => {
                    &&& is_random_uuid(id)
                    &&& !has_participant(old(self)@.participants, id)
                    &&& final(self)@.participants == old(self)@.participants.push(
                        ParticipantView { id, name: name@ },
                    )
                },
                Err(e) => e == LedgerError::DuplicateId && final(self)@ == old(self)@,
            },
    {
        let p = Participant::new(name);
        let id = p.id;
        match self.insert_participant(p) {
            Ok(()) => Ok(id),
            Err(e) => Err(e),
        }
    }

    /// Adds a receipt under a newly drawn identifier and returns that
    /// identifier. The draw is random: should it hit an identifier already
    /// in use, nothing is added.
    pub fn add_receipt(
        &mut self,
        label: String,
        amount: u64,
        is_exclusion: bool,
    ) -> (added: Result<u128, LedgerError>)
        requires
            old(self).wf(),
        ensures
            final(self).wf(),
            final(self)@.participants == old(self)@.participants,
            match added {
                Ok(id) => {
                    &&& is_random_uuid(id)
                    &&& !has_receipt(old(self)@.receipts, id)
                    &&& final(self)@.receipts == old(self)@.receipts.push(
                        ReceiptView {
                            label: label@,
                            total: amount as nat,
                            id,
                            exclusion: is_exclusion,
                        },
                    )
                },
                Err(e) => e == LedgerError::DuplicateId && final(self)@ == old(self)@,
            },
    {
        let r = Receipt::new(label, amount, is_exclusion);
        let id = r.id;
        match self.insert_receipt(r) {
            Ok(()) => Ok(id),
            Err(e) => Err(e),
        }
    }

    /// Removes the participant `id` and returns the record; does nothing if
    /// there is no such participant.
    pub fn remove_participant(&mut self, id: u128) -> (removed: Option<Participant>)
        requires
            old(self).wf(),
        ensures
            final(self).wf(),
            final(self)@.receipts == old(self)@.receipts,
            final(self)@.participants == without_participant(old(self)@.participants, id),
            !has_participant(final(self)@.participants, id),
            match removed {
                Some(p) => {
                    &&& has_participant(old(self)@.participants, id)
                    &&& p@ == old(self)@.participants[participant_index(
                        old(self)@.participants,
                        id,
                    )]
                },
                None => !has_participant(old(self)@.participants, id),
            },
    {
        match self.find_participant(id) {
            Some(i) => {
                let ghost before = self@.participants;
                proof {
                    assert(participant_ids(before)[i as int] == id);
                    lemma_index_of_distinct(participant_ids(before), i as int);
                    lemma_remove_distinct(participant_ids(before), i as int);
                }
                let p = self.participants.remove(i);
                proof {
                    assert(self@.participants =~= before.remove(i as int));
                    assert(participant_ids(self@.participants) =~= participant_ids(before).remove(
                        i as int,
                    ));
                }
                Some(p)
            },
            None => None,
        }
    }

    /// Removes the receipt `id` and returns the record; does nothing if
    /// there is no such receipt.
    pub fn remove_receipt(&mut self, id: u128) -> (removed: Option<Receipt>)
        requires
            old(self).wf(),
        ensures
            final(self).wf(),
            final(self)@.participants == old(self)@.participants,
            final(self)@.receipts == without_receipt(old(self)@.receipts, id),
            !has_receipt(final(self)@.receipts, id),
            match removed {
                Some(r) => {
                    &&& has_receipt(old(self)@.receipts, id)
                    &&& r@ == old(self)@.receipts[receipt_index(old(self)@.receipts, id)]
                },
                None => !has_receipt(old(self)@.receipts, id),
            },
    {
        match self.find_receipt(id) {
            Some(i) => {
                let ghost before = self@.receipts;
                proof {
                    assert(receipt_ids(before)[i as int] == id);
                    lemma_index_of_distinct(receipt_ids(before), i as int);
                    lemma_remove_distinct(receipt_ids(before), i as int);
                }
                let r = self.receipts.remove(i);
                proof {
                    assert(self@.receipts =~= before.remove(i as int));
                    assert(receipt_ids(self@.receipts) =~= receipt_ids(before).remove(i as int));
                }
                Some(r)
            },
            None => None,
        }
    }
}

} // verus!
