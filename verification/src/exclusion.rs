//! The exclusion ledger: the amount carved out of a receipt before it is
//! shared.

use crate::entity::{Receipt, ReceiptView};
use std::collections::HashMap;
use vstd::prelude::*;

verus! {

/// For a parent receipt, the one exclusion record that reduces what of it is
/// shared.
///
/// A parent has at most one exclusion at a time: recording another one for
/// the same parent replaces the earlier one, which then no longer reduces
/// anything.
pub struct ExclusionLedger {
    entries: HashMap<u128, Receipt>,
}

/// The amount that `m` carves out of the receipt `parent`: that of its
/// exclusion record, or nothing.
pub open spec fn exclusion_amount(m: Map<u128, ReceiptView>, parent: u128) -> nat {
    if m.contains_key(parent) {
        m[parent].total
    } else {
        0
    }
}

/// Whether an entry of `m` holds the exclusion record `exclusion_id`.
pub open spec fn records_exclusion(m: Map<u128, ReceiptView>, exclusion_id: u128) -> bool {
    exists|parent: u128| #[trigger] m.contains_key(parent) && m[parent].id == exclusion_id
}

/// `m` without the entries that hold the exclusion record `exclusion_id`.
pub open spec fn without_exclusion(
    m: Map<u128, ReceiptView>,
    exclusion_id: u128,
) -> Map<u128, ReceiptView> {
    Map::new(
        |parent: u128| m.contains_key(parent) && m[parent].id != exclusion_id,
        |parent: u128| m[parent],
    )
}

/// Of two exclusions recorded for one parent, only the second one counts.
pub proof fn lemma_second_exclusion_replaces_first(
    m: Map<u128, ReceiptView>,
    parent: u128,
    first: ReceiptView,
    second: ReceiptView,
)
    ensures
        m.insert(parent, first).insert(parent, second) == m.insert(parent, second),
        exclusion_amount(m.insert(parent, first).insert(parent, second), parent) == second.total,
{
    assert(m.insert(parent, first).insert(parent, second) =~= m.insert(parent, second));
}

impl View for ExclusionLedger {
    type V = Map<u128, ReceiptView>;

    closed spec fn view(&self) -> Map<u128, ReceiptView> {
        Map::new(
            |parent: u128| self.entries@.contains_key(parent),
            |parent: u128| self.entries@[parent]@,
        )
    }
}

impl ExclusionLedger {
    /// A ledger without entries.
    pub fn new() -> (ledger: ExclusionLedger)
        ensures
            ledger@ == Map::<u128, ReceiptView>::empty(),
    {
        let ledger = ExclusionLedger { entries: HashMap::new() };
        assert(ledger@ =~= Map::<u128, ReceiptView>::empty());
        ledger
    }

    /// Records `exclusion` as the exclusion of the receipt `parent`, in place
    /// of the one recorded before, if any.
    pub fn exclude(&mut self, parent: u128, exclusion: Receipt)
        ensures
            final(self)@ == old(self)@.insert(parent, exclusion@),
    {
        broadcast use vstd::std_specs::hash::group_hash_axioms;

        let ghost added = exclusion@;
        self.entries.insert(parent, exclusion);
        assert(self@ =~= old(self)@.insert(parent, added));
    }

    /// The exclusion record of the receipt `parent`, if one is recorded.
    pub fn exclusion_of(&self, parent: u128) -> (found: Option<&Receipt>)
        ensures
            match found {
                Some(r) => self@.contains_key(parent) && r@ == self@[parent],
                None => !self@.contains_key(parent),
            },
    {
        broadcast use vstd::std_specs::hash::group_hash_axioms;

        self.entries.get(&parent)
    }

    /// The amount carved out of the receipt `parent`; zero if no exclusion
    /// is recorded for it.
    pub fn exclusion_amount(&self, parent: u128) -> (amount: u64)
        ensures
            amount == exclusion_amount(self@, parent),
    {
        match self.exclusion_of(parent) {
            Some(r) => r.total,
            None => 0,
        }
    }

    /// The parent whose entry holds the exclusion record `exclusion_id`, if
    /// there is such an entry; the one with the least identifier, should
    /// several entries hold the record.
    pub fn parent_of(&self, exclusion_id: u128) -> (found: Option<u128>)
        ensures
            match found {
                Some(parent) => {
                    &&& self@.contains_key(parent)
                    &&& self@[parent].id == exclusion_id
                    &&& forall|other: u128| #[trigger]
                        self@.contains_key(other) && self@[other].id == exclusion_id ==> parent
                            <= other
                },
                None => !records_exclusion(self@, exclusion_id),
            },
    {
        broadcast use vstd::std_specs::hash::group_hash_axioms;

        let mut found: Option<u128> = None;
        for parent in it: self.entries.keys()
            invariant
                match found {
                    Some(p) => {
                        &&& self.entries@.contains_key(p)
                        &&& self.entries@[p].id == exclusion_id
                        &&& forall|j: int|
                            0 <= j < it.index() && self.entries@[*it.seq()[j]].id == exclusion_id
                                ==> p <= *it.seq()[j]
                    },
                    None => forall|j: int|
                        0 <= j < it.index() ==> self.entries@[*it.seq()[j]].id != exclusion_id,
                },
        {
            if let Some(r) = self.entries.get(parent) {
                if r.id == exclusion_id {
                    let better = match found {
                        Some(p) => *parent < p,
                        None => true,
                    };
                    if better {
                        found = Some(*parent);
                    }
                }
            }
        }
        found
    }

    /// Drops the entry of the receipt `parent`. Says whether there was one.
    pub fn remove_parent(&mut self, parent: u128) -> (found: bool)
        ensures
            found == old(self)@.contains_key(parent),
            final(self)@ == old(self)@.remove(parent),
    {
        broadcast use vstd::std_specs::hash::group_hash_axioms;

        let found = self.entries.remove(&parent).is_some();
        assert(self@ =~= old(self)@.remove(parent));
        found
    }

    /// Drops every entry that holds the exclusion record `exclusion_id`, so
    /// that the parent is shared in full again. Says whether there was one.
    pub fn remove_by_exclusion_id(&mut self, exclusion_id: u128) -> (found: bool)
        ensures
            found == records_exclusion(old(self)@, exclusion_id),
            final(self)@ == without_exclusion(old(self)@, exclusion_id),
    {
        broadcast use vstd::std_specs::hash::group_hash_axioms;

        let mut found = false;
        assert(self@.dom() =~= self.entries@.dom());
        loop
            invariant
                without_exclusion(self@, exclusion_id) == without_exclusion(
                    old(self)@,
                    exclusion_id,
                ),
                self@.dom().finite(),
                self@.dom().subset_of(old(self)@.dom()),
                found ==> records_exclusion(old(self)@, exclusion_id),
                !found ==> self@ == old(self)@,
            ensures
                !records_exclusion(self@, exclusion_id),
            decreases self@.dom().len(),
        {
            match self.parent_of(exclusion_id) {
                Some(parent) => {
                    let ghost before = self@;
                    self.remove_parent(parent);
                    proof {
                        assert(without_exclusion(self@, exclusion_id) =~= without_exclusion(
                            before,
                            exclusion_id,
                        ));
                        assert(old(self)@.contains_key(parent));
                        vstd::set_lib::lemma_len_subset(self@.dom(), before.dom());
                        assert(self@.dom() =~= before.dom().remove(parent));
                    }
                    found = true;
                },
                None => {
                    break ;
                },
            }
        }
        assert(self@ =~= without_exclusion(self@, exclusion_id));
        found
    }
}

} // verus!
