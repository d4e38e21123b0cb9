//! Participants and receipts, the records that the ledger keeps.

use crate::ident::{fresh_id, is_random_uuid};
use vstd::prelude::*;

verus! {

/// A person who shares in receipts.
#[derive(Debug)]
pub struct Participant {
    pub id: u128,
    pub name: String,
}

/// The mathematical view of a [`Participant`].
pub struct ParticipantView {
    pub id: u128,
    pub name: Seq<char>,
}

impl View for Participant {
    type V = ParticipantView;

    open spec fn view(&self) -> ParticipantView {
        ParticipantView { id: self.id, name: self.name@ }
    }
}

impl Clone for Participant {
    fn clone(&self) -> (copy: Self)
        ensures
            copy@ == self@,
    {
        Participant { id: self.id, name: self.name.clone() }
    }
}

impl Default for Participant {
    /// A participant without a name under the nil identifier.
    fn default() -> (p: Participant)
        ensures
            p@ == (ParticipantView { id: 0, name: Seq::empty() }),
    {
        Participant { id: 0, name: String::new() }
    }
}

impl Participant {
    /// A participant called `name` under the identifier `id`.
    pub fn with_id(id: u128, name: String) -> (p: Participant)
        ensures
            p@ == (ParticipantView { id, name: name@ }),
    {
        Participant { id, name }
    }

    /// A participant called `name` under a newly drawn identifier.
    pub fn new(name: String) -> (p: Participant)
        ensures
            p@.name == name@,
            is_random_uuid(p@.id),
    {
        Participant { id: fresh_id(), name }
    }
}

/// A recorded expense.
///
/// An ordinary receipt is shared among the participants assigned to it. A
/// receipt with `exclusion` set records an amount carved out of another
/// receipt; it is listed like any receipt but never shared.
#[derive(Debug)]
pub struct Receipt {
    pub label: String,
    /// The amount in cents.
    pub total: u64,
    pub id: u128,
    pub exclusion: bool,
}

/// The mathematical view of a [`Receipt`].
pub struct ReceiptView {
    pub label: Seq<char>,
    pub total: nat,
    pub id: u128,
    pub exclusion: bool,
}

impl View for Receipt {
    type V = ReceiptView;

    open spec fn view(&self) -> ReceiptView {
        ReceiptView {
            label: self.label@,
            total: self.total as nat,
            id: self.id,
            exclusion: self.exclusion,
        }
    }
}

impl Clone for Receipt {
    fn clone(&self) -> (copy: Self)
        ensures
            copy@ == self@,
    {
        Receipt {
            label: self.label.clone(),
            total: self.total,
            id: self.id,
            exclusion: self.exclusion,
        }
    }
}

impl Default for Receipt {
    /// An ordinary receipt of nothing, without a label, under the nil
    /// identifier.
    fn default() -> (r: Receipt)
        ensures
            r@ == (ReceiptView { label: Seq::empty(), total: 0, id: 0, exclusion: false }),
    {
        Receipt { label: String::new(), total: 0, id: 0, exclusion: false }
    }
}

impl Receipt {
    /// A receipt under the identifier `id`.
    pub fn with_id(id: u128, label: String, total: u64, exclusion: bool) -> (r: Receipt)
        ensures
            r@ == (ReceiptView { label: label@, total: total as nat, id, exclusion }),
    {
        Receipt { label, total, id, exclusion }
    }

    /// A receipt under a newly drawn identifier.
    pub fn new(label: String, total: u64, exclusion: bool) -> (r: Receipt)
        ensures
            r@.label == label@,
            r@.total == total,
            r@.exclusion == exclusion,
            is_random_uuid(r@.id),
    {
        Receipt { label, total, id: fresh_id(), exclusion }
    }
}

/// The views of a sequence of participants.
pub open spec fn participant_views(ps: Seq<Participant>) -> Seq<ParticipantView> {
    ps.map_values(|p: Participant| p@)
}

/// The views of a sequence of receipts.
pub open spec fn receipt_views(rs: Seq<Receipt>) -> Seq<ReceiptView> {
    rs.map_values(|r: Receipt| r@)
}

/// The identifiers of a sequence of participants, in order.
pub open spec fn participant_ids(ps: Seq<ParticipantView>) -> Seq<u128> {
    ps.map_values(|p: ParticipantView| p.id)
}

/// The identifiers of a sequence of receipts, in order.
pub open spec fn receipt_ids(rs: Seq<ReceiptView>) -> Seq<u128> {
    rs.map_values(|r: ReceiptView| r.id)
}

} // verus!
