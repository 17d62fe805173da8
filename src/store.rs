//! The trust relation of all accounts: one packed list with a reverse index
//! per truster.
use vstd::prelude::*;

use crate::pallet::{no_trust, Error};
use crate::trust_list::{swap_remove, TrustList};
use crate::AccountId;

verus! {

broadcast use vstd::std_specs::hash::group_hash_axioms;

/// For every account, the accounts it trusts, in packed order. An account
/// that was never used maps to the empty sequence, as does one whose
/// trustees were all removed.
pub struct TrustStore {
    lists: std::collections::HashMap<AccountId, TrustList>,
}

impl View for TrustStore {
    type V = Map<AccountId, Seq<AccountId>>;

    closed spec fn view(&self) -> Map<AccountId, Seq<AccountId>> {
        Map::new(
            |a: AccountId| true,
            |a: AccountId|
                if self.lists@.contains_key(a) {
                    self.lists@[a]@
                } else {
                    Seq::empty()
                },
        )
    }
}

impl TrustStore {
    /// Each truster's list is consistent with its reverse index.
    pub closed spec fn wf(&self) -> bool {
        forall|a: AccountId| #[trigger] self.lists@.contains_key(a) ==> self.lists@[a].wf()
    }

    /// No account is listed twice among the trustees of one truster.
    pub proof fn lemma_no_duplicates(&self, a: AccountId)
        requires
            self.wf(),
        ensures
            self@[a].no_duplicates(),
    {
        if self.lists@.contains_key(a) {
            self.lists@[a].lemma_no_duplicates();
        }
    }

    /// What the reverse index of `a` records for `b`: its position among
    /// the trustees of `a`, if `a` trusts it.
    pub closed spec fn index_of(&self, a: AccountId, b: AccountId) -> Option<usize> {
        if self.lists@.contains_key(a) {
            self.lists@[a].index_of(b)
        } else {
            None
        }
    }

    /// The reverse index of `a` resolves each trustee to its exact
    /// position, and knows no other account.
    pub proof fn lemma_index_of(&self, a: AccountId)
        requires
            self.wf(),
        ensures
            forall|i: int|
                0 <= i < self@[a].len() ==> #[trigger] self.index_of(a, self@[a][i]) == Some(
                    i as usize,
                ),
            forall|b: AccountId| #[trigger] self.index_of(a, b) is Some <==> self@[a].contains(b),
    {
        if self.lists@.contains_key(a) {
            self.lists@[a].lemma_index_of();
        }
    }

    /// Every account has a list, the empty one where it trusts nobody.
    pub proof fn lemma_total(&self)
        ensures
            self@.dom() == Set::<AccountId>::full(),
    {
        assert(self@.dom() =~= Set::<AccountId>::full());
    }

    /// The store in which nobody trusts anybody.
    pub fn new() -> (r: Self)
        ensures
            r.wf(),
            r@ == no_trust(),
    {
        let r = TrustStore { lists: std::collections::HashMap::new() };
        assert(r@ =~= no_trust());
        r
    }

    /// Whether `a` trusts `b`.
    pub fn contains(&self, a: AccountId, b: AccountId) -> (r: bool)
        requires
            self.wf(),
        ensures
            r == self@[a].contains(b),
    {
        match self.lists.get(&a) {
            Some(list) => list.contains(b),
            None => false,
        }
    }

    /// How many accounts `a` trusts.
    pub fn count(&self, a: AccountId) -> (r: usize)
        ensures
            r == self@[a].len(),
    {
        match self.lists.get(&a) {
            Some(list) => list.count(),
            None => 0,
        }
    }

    /// The trustee of `a` at position `i`, if there is one.
    pub fn get(&self, a: AccountId, i: usize) -> (r: Option<AccountId>)
        ensures
            r == (if i < self@[a].len() {
                Some(self@[a][i as int])
            } else {
                None::<AccountId>
            }),
    {
        match self.lists.get(&a) {
            Some(list) => {
                if i < list.count() {
                    Some(list.get(i))
                } else {
                    None
                }
            },
            None => None,
        }
    }

    /// What the reverse index of `a` records for `b`.
    pub fn position(&self, a: AccountId, b: AccountId) -> (r: Option<usize>)
        ensures
            r == self.index_of(a, b),
    {
        match self.lists.get(&a) {
            Some(list) => list.position(b),
            None => None,
        }
    }

    /// The trustees of `a`, in packed order.
    pub fn list(&self, a: AccountId) -> (r: Vec<AccountId>)
        ensures
            r@ == self@[a],
    {
        match self.lists.get(&a) {
            Some(list) => list.to_vec(),
            None => Vec::new(),
        }
    }

    /// Appends `b` to the trustees of `a`.
    pub fn insert(&mut self, a: AccountId, b: AccountId)
        requires
            old(self).wf(),
            !old(self)@[a].contains(b),
        ensures
            final(self).wf(),
            final(self)@ == old(self)@.insert(a, old(self)@[a].push(b)),
    {
        let mut list = match self.lists.remove(&a) {
            Some(list) => list,
            None => TrustList::new(),
        };
        list.insert(b);
        self.lists.insert(a, list);
        proof {
            assert(self@ =~= old(self)@.insert(a, old(self)@[a].push(b)));
        }
    }

    /// Removes `b` from the trustees of `a`, moving the last trustee of
    /// `a` into its slot. Fails with `NotTrusted`, changing nothing, where
    /// `a` does not trust `b`.
    pub fn remove(&mut self, a: AccountId, b: AccountId) -> (r: Result<(), Error>)
        requires
            old(self).wf(),
        ensures
            final(self).wf(),
            old(self)@[a].contains(b) ==> r is Ok && final(self)@ == old(self)@.insert(
                a,
                swap_remove(old(self)@[a], b),
            ),
            !old(self)@[a].contains(b) ==> r == Err::<(), Error>(Error::NotTrusted)
                && *final(self) == *old(self),
    {
        if !self.contains(a, b) {
            return Err(Error::NotTrusted);
        }
        let mut list = match self.lists.remove(&a) {
            Some(list) => list,
            None => TrustList::new(),
        };
        list.remove(b);
        self.lists.insert(a, list);
        proof {
            assert(self@ =~= old(self)@.insert(a, swap_remove(old(self)@[a], b)));
        }
        Ok(())
    }
}

} // verus!
