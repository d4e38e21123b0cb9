//! The assignment table: which participant shares in which receipts.

use std::collections::HashMap;
use std::collections::HashSet;
use vstd::prelude::*;

verus! {

/// For each registered participant, the set of receipts they share in.
///
/// The table holds identifiers only. It knows nothing of the records they
/// stand for.
pub struct AssignmentTable {
    sets: HashMap<u128, HashSet<u128>>,
}

/// Whether `m` has the participant `pid` sharing in the receipt `rid`.
pub open spec fn assigned(m: Map<u128, Set<u128>>, pid: u128, rid: u128) -> bool {
    m.contains_key(pid) && m[pid].contains(rid)
}

/// `s` with `rid` put in if it was out, and taken out if it was in.
pub open spec fn flipped(s: Set<u128>, rid: u128) -> Set<u128> {
    if s.contains(rid) {
        s.remove(rid)
    } else {
        s.insert(rid)
    }
}

/// `m` after the participant `pid` toggles the receipt `rid`. A participant
/// that is not registered toggles nothing.
pub open spec fn toggled(m: Map<u128, Set<u128>>, pid: u128, rid: u128) -> Map<u128, Set<u128>> {
    if m.contains_key(pid) {
        m.insert(pid, flipped(m[pid], rid))
    } else {
        m
    }
}

/// `m` with the receipt `rid` put into the set of `pid`, if `pid` is
/// registered.
pub open spec fn with_assignment(
    m: Map<u128, Set<u128>>,
    pid: u128,
    rid: u128,
) -> Map<u128, Set<u128>> {
    if m.contains_key(pid) {
        m.insert(pid, m[pid].insert(rid))
    } else {
        m
    }
}

/// `m` with the receipt `rid` taken out of the set of `pid`, if `pid` is
/// registered.
pub open spec fn without_assignment(
    m: Map<u128, Set<u128>>,
    pid: u128,
    rid: u128,
) -> Map<u128, Set<u128>> {
    if m.contains_key(pid) {
        m.insert(pid, m[pid].remove(rid))
    } else {
        m
    }
}

/// `m` with the receipt `rid` put into the set of every registered
/// participant.
pub open spec fn everyone_with(m: Map<u128, Set<u128>>, rid: u128) -> Map<u128, Set<u128>> {
    Map::new(|pid: u128| m.contains_key(pid), |pid: u128| m[pid].insert(rid))
}

/// `m` with the receipt `rid` taken out of the set of every registered
/// participant.
pub open spec fn everyone_without(m: Map<u128, Set<u128>>, rid: u128) -> Map<u128, Set<u128>> {
    Map::new(|pid: u128| m.contains_key(pid), |pid: u128| m[pid].remove(rid))
}

/// Toggling the same assignment twice changes nothing.
pub proof fn lemma_toggle_twice(m: Map<u128, Set<u128>>, pid: u128, rid: u128)
    ensures
        toggled(toggled(m, pid, rid), pid, rid) == m,
{
    if m.contains_key(pid) {
        assert(flipped(flipped(m[pid], rid), rid) =~= m[pid]);
        assert(toggled(toggled(m, pid, rid), pid, rid) =~= m);
    }
}

/// A toggle flips exactly the one assignment it names.
pub proof fn lemma_toggle_flips_one(m: Map<u128, Set<u128>>, pid: u128, rid: u128, p: u128, r: u128)
    ensures
        assigned(toggled(m, pid, rid), p, r) == if p == pid && r == rid && m.contains_key(pid) {
            !assigned(m, p, r)
        } else {
            assigned(m, p, r)
        },
{
}

impl View for AssignmentTable {
    type V = Map<u128, Set<u128>>;

    closed spec fn view(&self) -> Map<u128, Set<u128>> {
        Map::new(|pid: u128| self.sets@.contains_key(pid), |pid: u128| self.sets@[pid]@)
    }
}

impl AssignmentTable {
    /// A table in which nobody is registered.
    pub fn new() -> (table: AssignmentTable)
        ensures
            table@ == Map::<u128, Set<u128>>::empty(),
    {
        let table = AssignmentTable { sets: HashMap::new() };
        assert(table@ =~= Map::<u128, Set<u128>>::empty());
        table
    }

    /// Registers the participant `pid` as sharing in exactly the receipts
    /// `receipt_ids`, whatever was recorded for `pid` before.
    pub fn set_default_assignment(&mut self, pid: u128, receipt_ids: &Vec<u128>)
        ensures
            final(self)@ == old(self)@.insert(pid, receipt_ids@.to_set()),
    {
        broadcast use vstd::std_specs::hash::group_hash_axioms;

        let mut set: HashSet<u128> = HashSet::new();
        let mut i: usize = 0;
        while i < receipt_ids.len()
            invariant
                i <= receipt_ids.len(),
                set@ == receipt_ids@.take(i as int).to_set(),
            decreases receipt_ids.len() - i,
        {
            set.insert(receipt_ids[i]);
            proof {
                let before = receipt_ids@.take(i as int);
                let after = receipt_ids@.take(i + 1);
                assert(after =~= before.push(receipt_ids@[i as int]));
                assert forall|x: u128| after.to_set().contains(x) <==> before.to_set().insert(
                    receipt_ids@[i as int],
                ).contains(x) by {
                    if after.contains(x) {
                        let k = choose|k: int| 0 <= k < after.len() && after[k] == x;
                        if k < i {
                            assert(before[k] == x);
                        }
                    }
                    if before.contains(x) {
                        let k = choose|k: int| 0 <= k < before.len() && before[k] == x;
                        assert(after[k] == x);
                    }
                    assert(after[i as int] == receipt_ids@[i as int]);
                }
                assert(after.to_set() =~= before.to_set().insert(receipt_ids@[i as int]));
            }
            i += 1;
        }
        assert(receipt_ids@.take(i as int) =~= receipt_ids@);
        self.sets.insert(pid, set);
        assert(self@ =~= old(self)@.insert(pid, receipt_ids@.to_set()));
    }

    /// Whether the participant `pid` is registered.
    pub fn is_registered(&self, pid: u128) -> (yes: bool)
        ensures
            yes == self@.contains_key(pid),
    {
        broadcast use vstd::std_specs::hash::group_hash_axioms;

        self.sets.contains_key(&pid)
    }

    /// Whether the participant `pid` shares in the receipt `rid`.
    pub fn is_assigned(&self, pid: u128, rid: u128) -> (yes: bool)
        ensures
            yes == assigned(self@, pid, rid),
    {
        broadcast use vstd::std_specs::hash::group_hash_axioms;

        match self.sets.get(&pid) {
            Some(set) => set.contains(&rid),
            None => false,
        }
    }

    /// Flips whether the participant `pid` shares in the receipt `rid`.
    /// Says whether `pid` is registered; if not, nothing changes.
    pub fn toggle(&mut self, pid: u128, rid: u128) -> (found: bool)
        ensures
            found == old(self)@.contains_key(pid),
            final(self)@ == toggled(old(self)@, pid, rid),
    {
        broadcast use vstd::std_specs::hash::group_hash_axioms;

        match self.sets.remove(&pid) {
            Some(mut set) => {
                if set.contains(&rid) {
                    set.remove(&rid);
                } else {
                    set.insert(rid);
                }
                self.sets.insert(pid, set);
                assert(self@ =~= toggled(old(self)@, pid, rid));
                true
            },
            None => {
                assert(self@ =~= old(self)@);
                false
            },
        }
    }

    /// Makes the participant `pid` share in the receipt `rid`.
    /// Says whether `pid` is registered; if not, nothing changes.
    pub fn assign(&mut self, pid: u128, rid: u128) -> (found: bool)
        ensures
            found == old(self)@.contains_key(pid),
            final(self)@ == with_assignment(old(self)@, pid, rid),
    {
        broadcast use vstd::std_specs::hash::group_hash_axioms;

        match self.sets.remove(&pid) {
            Some(mut set) => {
                set.insert(rid);
                self.sets.insert(pid, set);
                assert(self@ =~= with_assignment(old(self)@, pid, rid));
                true
            },
            None => {
                assert(self@ =~= old(self)@);
                false
            },
        }
    }

    /// Makes the participant `pid` no longer share in the receipt `rid`.
    /// Says whether `pid` is registered; if not, nothing changes.
    pub fn unassign(&mut self, pid: u128, rid: u128) -> (found: bool)
        ensures
            found == old(self)@.contains_key(pid),
            final(self)@ == without_assignment(old(self)@, pid, rid),
    {
        broadcast use vstd::std_specs::hash::group_hash_axioms;

        match self.sets.remove(&pid) {
            Some(mut set) => {
                set.remove(&rid);
                self.sets.insert(pid, set);
                assert(self@ =~= without_assignment(old(self)@, pid, rid));
                true
            },
            None => {
                assert(self@ =~= old(self)@);
                false
            },
        }
    }

    /// Drops the participant `pid` with their whole set.
    /// Says whether `pid` was registered.
    pub fn remove_participant(&mut self, pid: u128) -> (found: bool)
        ensures
            found == old(self)@.contains_key(pid),
            final(self)@ == old(self)@.remove(pid),
    {
        broadcast use vstd::std_specs::hash::group_hash_axioms;

        let found = self.sets.remove(&pid).is_some();
        assert(self@ =~= old(self)@.remove(pid));
        found
    }
}

} // verus!
