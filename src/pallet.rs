//! Trusting and untrusting accounts, and the queries over the trust
//! relation.
use vstd::prelude::*;

use crate::store::TrustStore;
use crate::trust_list::{lemma_swap_remove, swap_remove};
use crate::AccountId;

verus! {

broadcast use vstd::seq_lib::group_seq_properties;

/// The trust relation as a whole: for each account, whom it trusts, in
/// packed order.
pub type Relation = Map<AccountId, Seq<AccountId>>;

/// `a` trusts `b` directly.
pub open spec fn trusts(r: Relation, a: AccountId, b: AccountId) -> bool {
    r[a].contains(b)
}

/// Some account that `a` trusts trusts `b`: trust over exactly two hops,
/// whether or not `a` also trusts `b` directly.
pub open spec fn trusts_only_deep(r: Relation, a: AccountId, b: AccountId) -> bool {
    exists|i: int| 0 <= i < r[a].len() && #[trigger] r[r[a][i]].contains(b)
}

/// `a` trusts `b` directly or over two hops.
pub open spec fn trusts_deep(r: Relation, a: AccountId, b: AccountId) -> bool {
    trusts(r, a, b) || trusts_only_deep(r, a, b)
}

/// Holds of the accounts that trust `y` directly.
pub open spec fn trusters_of(r: Relation, y: AccountId) -> spec_fn(AccountId) -> bool {
    |c: AccountId| r[c].contains(y)
}

/// The trustees of `a` that trust `y`, in the order in which `a` lists them.
pub open spec fn trusted_that_trust(r: Relation, a: AccountId, y: AccountId) -> Seq<AccountId> {
    r[a].filter(trusters_of(r, y))
}

/// The relation after `a` asks to trust `b`: unchanged where `a` is `b`
/// or trusts `b` already, else `b` is appended to the trustees of `a`.
pub open spec fn trusted(r: Relation, a: AccountId, b: AccountId) -> Relation {
    if a == b || trusts(r, a, b) {
        r
    } else {
        r.insert(a, r[a].push(b))
    }
}

/// The relation after `a` asks to stop trusting `b`: unchanged where `a`
/// does not trust `b`, else `b` leaves the trustees of `a` and the last of
/// them takes its slot.
pub open spec fn untrusted(r: Relation, a: AccountId, b: AccountId) -> Relation {
    if trusts(r, a, b) {
        r.insert(a, swap_remove(r[a], b))
    } else {
        r
    }
}

/// The relation in which nobody trusts anybody.
pub open spec fn no_trust() -> Relation {
    Map::new(|a: AccountId| true, |a: AccountId| Seq::<AccountId>::empty())
}

/// What `a` asking to trust `b` returns.
pub open spec fn trust_outcome(r: Relation, a: AccountId, b: AccountId) -> Result<(), Error> {
    if a == b {
        Err(Error::TrustSelf)
    } else if trusts(r, a, b) {
        Err(Error::AlreadyTrusted)
    } else {
        Ok(())
    }
}

/// What `a` asking to stop trusting `b` returns.
pub open spec fn untrust_outcome(r: Relation, a: AccountId, b: AccountId) -> Result<(), Error> {
    if trusts(r, a, b) {
        Ok(())
    } else {
        Err(Error::NotTrusted)
    }
}

/// Why a change to the trust relation was refused.
#[derive(Clone, Copy, Debug, PartialEq, Eq, Structural)]
pub enum Error {
    /// An account cannot trust itself.
    TrustSelf,
    /// The account is trusted already.
    AlreadyTrusted,
    /// The account is not trusted.
    NotTrusted,
}

/// What a successful change to the trust relation reports.
#[derive(Clone, Copy, Debug, PartialEq, Eq, Structural)]
pub enum Event {
    /// The first account now trusts the second.
    AccountTrusted(AccountId, AccountId),
    /// The first account no longer trusts the second.
    AccountUntrusted(AccountId, AccountId),
}

/// The trust relation of all accounts, with the events that its changes
/// have emitted, oldest first.
pub struct Pallet {
    store: TrustStore,
    events: Vec<Event>,
}

impl Pallet {
    /// The store is consistent and no account trusts itself.
    pub closed spec fn wf(&self) -> bool {
        &&& self.store.wf()
        &&& forall|a: AccountId| !(#[trigger] self.store@[a]).contains(a)
    }

    /// Whom each account trusts.
    pub closed spec fn relation(&self) -> Relation {
        self.store@
    }

    /// The events emitted so far.
    pub closed spec fn emitted(&self) -> Seq<Event> {
        self.events@
    }

    /// What the reverse index of `a` records for `b`: its position among
    /// the trustees of `a`.
    pub closed spec fn index_of(&self, a: AccountId, b: AccountId) -> Option<usize> {
        self.store.index_of(a, b)
    }

    /// In every state that `new`, `trust_account` and `untrust_account`
    /// can reach, the reverse index of each account resolves each of its
    /// trustees to the exact position of that trustee in its list, and
    /// knows no other account; the list has no duplicates and does not
    /// hold the account itself.
    pub proof fn lemma_index_consistent(&self, a: AccountId)
        requires
            self.wf(),
        ensures
            self.relation().dom() == Set::<AccountId>::full(),
            self.relation()[a].no_duplicates(),
            !self.relation()[a].contains(a),
            forall|i: int|
                0 <= i < self.relation()[a].len() ==> #[trigger] self.index_of(
                    a,
                    self.relation()[a][i],
                ) == Some(i as usize),
            forall|b: AccountId| #[trigger] self.index_of(a, b) is Some <==> self.relation()[a].contains(b),
    {
        self.store.lemma_total();
        self.store.lemma_no_duplicates(a);
        self.store.lemma_index_of(a);
        assert(!self.store@[a].contains(a));
    }

    /// Nobody trusts anybody, and nothing has been emitted.
    pub fn new() -> (r: Self)
        ensures
            r.wf(),
            r.relation() == no_trust(),
            r.emitted() == Seq::<Event>::empty(),
    {
        let r = Pallet { store: TrustStore::new(), events: Vec::new() };
        proof {
            assert forall|a: AccountId| !(#[trigger] r.store@[a]).contains(a) by {}
        }
        r
    }

    /// `sender` starts to trust `account`.
    pub fn trust_account(&mut self, sender: AccountId, account: AccountId) -> (r: Result<(), Error>)
        requires
            old(self).wf(),
        ensures
            final(self).wf(),
            r == trust_outcome(old(self).relation(), sender, account),
            final(self).relation() == trusted(old(self).relation(), sender, account),
            r is Err ==> *final(self) == *old(self),
            r is Ok ==> final(self).emitted() == old(self).emitted().push(
                Event::AccountTrusted(sender, account),
            ),
    {
        if sender == account {
            return Err(Error::TrustSelf);
        }
        if self.store.contains(sender, account) {
            return Err(Error::AlreadyTrusted);
        }
        self.store.insert(sender, account);
        self.events.push(Event::AccountTrusted(sender, account));
        proof {
            assert forall|a: AccountId| !(#[trigger] self.store@[a]).contains(a) by {
                if a == sender {
                    assert(!old(self).store@[a].contains(a));
                    assert(self.store@[a] == old(self).store@[a].push(account));
                    if self.store@[a].contains(a) {
                        let k = choose|k: int| 0 <= k < self.store@[a].len() && self.store@[a][k] == a;
                        if k < old(self).store@[a].len() {
                            assert(old(self).store@[a][k] == a);
                        }
                    }
                } else {
                    assert(!old(self).store@[a].contains(a));
                }
            }
        }
        Ok(())
    }

    /// `sender` stops trusting `account`. The last trustee of `sender`
    /// moves into the slot that `account` held.
    pub fn untrust_account(&mut self, sender: AccountId, account: AccountId) -> (r: Result<
        (),
        Error,
    >)
        requires
            old(self).wf(),
        ensures
            final(self).wf(),
            r == untrust_outcome(old(self).relation(), sender, account),
            final(self).relation() == untrusted(old(self).relation(), sender, account),
            r is Err ==> *final(self) == *old(self),
            r is Ok ==> final(self).emitted() == old(self).emitted().push(
                Event::AccountUntrusted(sender, account),
            ),
    {
        self.store.remove(sender, account)?;
        self.events.push(Event::AccountUntrusted(sender, account));
        proof {
            old(self).store.lemma_no_duplicates(sender);
            lemma_swap_remove(old(self).store@[sender], account);
            assert forall|a: AccountId| !(#[trigger] self.store@[a]).contains(a) by {
                assert(!old(self).store@[a].contains(a));
            }
        }
        Ok(())
    }

    /// Whether `account` trusts `trustee` directly.
    pub fn is_trusted(&self, account: AccountId, trustee: AccountId) -> (r: bool)
        requires
            self.wf(),
        ensures
            r == trusts(self.relation(), account, trustee),
    {
        self.store.contains(account, trustee)
    }

    /// Whether some account that `account` trusts trusts `trustee`. Direct
    /// trust is not looked at.
    pub fn is_trusted_only_deep(&self, account: AccountId, trustee: AccountId) -> (r: bool)
        requires
            self.wf(),
        ensures
            r == trusts_only_deep(self.relation(), account, trustee),
    {
        let ghost rel = self.relation();
        let count = self.store.count(account);
        let mut i: usize = 0;
        while i < count
            invariant
                self.wf(),
                rel == self.relation(),
                count == rel[account].len(),
                i <= count,
                forall|j: int| 0 <= j < i ==> !(#[trigger] rel[rel[account][j]]).contains(trustee),
            decreases count - i,
        {
            let c = self.store.get(account, i).unwrap();
            if self.store.contains(c, trustee) {
                assert(rel[rel[account][i as int]].contains(trustee));
                return true;
            }
            i = i + 1;
        }
        false
    }

    /// Whether `account` trusts `trustee` directly or over two hops.
    pub fn is_trusted_deep(&self, account: AccountId, trustee: AccountId) -> (r: bool)
        requires
            self.wf(),
        ensures
            r == trusts_deep(self.relation(), account, trustee),
    {
        if self.store.contains(account, trustee) {
            return true;
        }
        self.is_trusted_only_deep(account, trustee)
    }

    /// The accounts that `account` trusts, in packed order.
    pub fn trusted_by(&self, account: AccountId) -> (r: Vec<AccountId>)
        ensures
            r@ == self.relation()[account],
    {
        self.store.list(account)
    }

    /// The accounts that `account` trusts and that trust `other`, in the
    /// order of `trusted_by(account)`.
    pub fn trusted_by_that_trust(&self, account: AccountId, other: AccountId) -> (r: Vec<
        AccountId,
    >)
        requires
            self.wf(),
        ensures
            r@ == trusted_that_trust(self.relation(), account, other),
    {
        let ghost rel = self.relation();
        let trusted = self.trusted_by(account);
        let mut found: Vec<AccountId> = Vec::new();
        let mut i: usize = 0;
        while i < trusted.len()
            invariant
                self.wf(),
                rel == self.relation(),
                trusted@ == rel[account],
                i <= trusted@.len(),
                found@ == trusted@.take(i as int).filter(trusters_of(rel, other)),
            decreases trusted@.len() - i,
        {
            let c = trusted[i];
            proof {
                assert(trusted@.take(i as int + 1) == trusted@.take(i as int).push(c));
                trusted@.take(i as int).lemma_filter_push(c, trusters_of(rel, other));
            }
            if self.is_trusted(c, other) {
                found.push(c);
            }
            i = i + 1;
        }
        proof {
            assert(trusted@.take(i as int) == trusted@);
        }
        found
    }

    /// How many accounts `account` trusts.
    pub fn account_trusted_account_list_count(&self, account: AccountId) -> (r: usize)
        ensures
            r == self.relation()[account].len(),
    {
        self.store.count(account)
    }

    /// The trustee of `account` at position `i`, if there is one.
    pub fn account_trusted_account_list(&self, account: AccountId, i: usize) -> (r: Option<
        AccountId,
    >)
        ensures
            r == (if i < self.relation()[account].len() {
                Some(self.relation()[account][i as int])
            } else {
                None::<AccountId>
            }),
    {
        self.store.get(account, i)
    }

    /// One more than the position of `trustee` among the trustees of
    /// `account`, or `None` where `account` does not trust `trustee`.
    pub fn account_trusted_account_index(&self, account: AccountId, trustee: AccountId) -> (r:
        Option<usize>)
        requires
            self.wf(),
        ensures
            match self.index_of(account, trustee) {
                Some(i) => r == Some((i + 1) as usize),
                None => r is None,
            },
    {
        proof {
            self.lemma_index_consistent(account);
            self.store.lemma_index_of(account);
        }
        let count = self.store.count(account);
        match self.store.position(account, trustee) {
            Some(i) => {
                assert(i < count);
                Some(i + 1)
            },
            None => None,
        }
    }

    /// The events emitted so far, oldest first.
    pub fn events(&self) -> (r: &Vec<Event>)
        ensures
            r@ == self.emitted(),
    {
        &self.events
    }
}

} // verus!
