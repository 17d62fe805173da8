//! Queries of the trust relation as it stood at a given block, defaulting
//! to the best block, with failures reported as a single error kind.
use vstd::prelude::*;

use crate::pallet::{trusted_that_trust, trusts, trusts_deep, trusts_only_deep, Pallet};
use crate::AccountId;

verus! {

/// Names a block, and so the state of the relation after it.
pub type BlockHash = u64;

/// Kinds of query failure, each with its error code.
#[derive(Clone, Copy, Debug, PartialEq, Eq, Structural)]
pub enum Error {
    /// A request could not be decoded.
    DecodeError,
    /// The state that a query asked for could not be read.
    RuntimeError,
}

impl From<Error> for i32 {
    fn from(e: Error) -> (r: i32) {
        match e {
            Error::RuntimeError => 1,
            Error::DecodeError => 2,
        }
    }
}

impl vstd::std_specs::convert::FromSpecImpl<Error> for i32 {
    open spec fn obeys_from_spec() -> bool {
        true
    }

    open spec fn from_spec(e: Error) -> i32 {
        match e {
            Error::RuntimeError => 1,
            Error::DecodeError => 2,
        }
    }
}

/// A query failed: `code` is that of `Error::RuntimeError`, and `block` is
/// the block whose state could not be found.
#[derive(Clone, Copy, Debug, PartialEq, Eq, Structural)]
pub struct QueryFailed {
    pub code: i32,
    pub block: BlockHash,
}

/// The states of the relation recorded after successive blocks; the last
/// one is the best block. No two blocks share a hash.
pub struct Client {
    blocks: Vec<(BlockHash, Pallet)>,
}

impl Client {
    /// The recorded blocks, oldest first.
    pub closed spec fn blocks(&self) -> Seq<(BlockHash, Pallet)> {
        self.blocks@
    }

    /// At least one block is recorded, each state is well formed, and the
    /// hashes are distinct.
    pub open spec fn wf(&self) -> bool {
        &&& self.blocks().len() > 0
        &&& forall|i: int| 0 <= i < self.blocks().len() ==> (#[trigger] self.blocks()[i]).1.wf()
        &&& forall|i: int, j: int|
            0 <= i < j < self.blocks().len() ==> #[trigger] self.blocks()[i].0
                != #[trigger] self.blocks()[j].0
    }

    /// Whether some recorded block has hash `h`.
    pub open spec fn knows(&self, h: BlockHash) -> bool {
        exists|i: int| 0 <= i < self.blocks().len() && #[trigger] self.blocks()[i].0 == h
    }

    /// The state that a query at `at` reads: the best block's where `at` is
    /// `None`, else that of the block named `at`, if it was recorded.
    pub open spec fn state_at(&self, at: Option<BlockHash>) -> Option<Pallet> {
        match at {
            None => Some(self.blocks().last().1),
            Some(h) => if self.knows(h) {
                Some(
                    self.blocks()[choose|i: int|
                        0 <= i < self.blocks().len() && #[trigger] self.blocks()[i].0 == h].1,
                )
            } else {
                None
            },
        }
    }

    /// A chain that holds the genesis block alone.
    pub fn new(hash: BlockHash, genesis: Pallet) -> (r: Self)
        requires
            genesis.wf(),
        ensures
            r.wf(),
            r.blocks() == seq![(hash, genesis)],
    {
        let mut blocks: Vec<(BlockHash, Pallet)> = Vec::new();
        blocks.push((hash, genesis));
        Client { blocks }
    }

    /// Records `state` as the state after a new best block `hash`. Refused,
    /// with `false` and nothing changed, where `hash` is recorded already.
    pub fn push_block(&mut self, hash: BlockHash, state: Pallet) -> (r: bool)
        requires
            old(self).wf(),
            state.wf(),
        ensures
            final(self).wf(),
            r == !old(self).knows(hash),
            r ==> final(self).blocks() == old(self).blocks().push((hash, state)),
            !r ==> final(self).blocks() == old(self).blocks(),
    {
        let mut i: usize = 0;
        while i < self.blocks.len()
            invariant
                self.wf(),
                state.wf(),
                self.blocks() == old(self).blocks(),
                i <= self.blocks@.len(),
                forall|j: int| 0 <= j < i ==> #[trigger] self.blocks@[j].0 != hash,
            decreases self.blocks@.len() - i,
        {
            if self.blocks[i].0 == hash {
                assert(self.blocks()[i as int].0 == hash);
                return false;
            }
            i = i + 1;
        }
        self.blocks.push((hash, state));
        proof {
            let b = self.blocks();
            assert forall|j: int| 0 <= j < b.len() implies (#[trigger] b[j]).1.wf() by {
                if j < b.len() - 1 {
                    assert(b[j] == old(self).blocks()[j]);
                }
            }
            assert forall|j: int, k: int| 0 <= j < k < b.len() implies #[trigger] b[j].0
                != #[trigger] b[k].0 by {
                assert(b[j] == old(self).blocks()[j]);
                if k < b.len() - 1 {
                    assert(b[k] == old(self).blocks()[k]);
                }
            }
        }
        true
    }

    /// The hash of the best block.
    pub fn best_hash(&self) -> (r: BlockHash)
        requires
            self.wf(),
        ensures
            r == self.blocks().last().0,
    {
        self.blocks[self.blocks.len() - 1].0
    }

    /// The state that a query at `at` reads, if there is one.
    pub fn resolve(&self, at: Option<BlockHash>) -> (r: Option<&Pallet>)
        requires
            self.wf(),
        ensures
            match r {
                Some(p) => self.state_at(at) == Some(*p) && p.wf(),
                None => self.state_at(at) is None,
            },
    {
        let h = match at {
            Some(h) => h,
            None => self.best_hash(),
        };
        let mut i: usize = 0;
        while i < self.blocks.len()
            invariant
                self.wf(),
                h == match at {
                    Some(h) => h,
                    None => self.blocks().last().0,
                },
                i <= self.blocks@.len(),
                forall|j: int| 0 <= j < i ==> #[trigger] self.blocks@[j].0 != h,
            decreases self.blocks@.len() - i,
        {
            if self.blocks[i].0 == h {
                proof {
                    let b = self.blocks();
                    assert(b[i as int].0 == h);
                    let k = choose|k: int| 0 <= k < b.len() && #[trigger] b[k].0 == h;
                    if k != i {
                        assert(b[k].0 == b[i as int].0);
                    }
                    if at is None {
                        if i != b.len() - 1 {
                            assert(b[b.len() - 1].0 == b[i as int].0);
                        }
                    }
                }
                return Some(&self.blocks[i].1);
            }
            i = i + 1;
        }
        proof {
            let b = self.blocks();
            if at is None {
                assert(b[b.len() - 1].0 == h);
            }
        }
        None
    }
}

/// Answers queries of the trust relation at any recorded block.
pub struct TrustedAccounts {
    client: std::sync::Arc<Client>,
}

impl TrustedAccounts {
    /// The chain that queries read.
    pub closed spec fn client(&self) -> Client {
        *self.client
    }

    /// Queries that read `client`.
    pub fn new(client: std::sync::Arc<Client>) -> (r: Self)
        ensures
            r.client() == *client,
    {
        TrustedAccounts { client }
    }

    /// The state at `at`, or the failure that names the missing block.
    fn state(&self, at: Option<BlockHash>) -> (r: Result<&Pallet, QueryFailed>)
        requires
            self.client().wf(),
        ensures
            match r {
                Ok(p) => self.client().state_at(at) == Some(*p) && p.wf(),
                Err(e) => self.client().state_at(at) is None && at is Some && e == (QueryFailed {
                    code: 1,
                    block: at->Some_0,
                }),
            },
    {
        match self.client.resolve(at) {
            Some(p) => Ok(p),
            None => {
                let block = match at {
                    Some(h) => h,
                    None => 0,
                };
                Err(QueryFailed { code: i32::from(Error::RuntimeError), block })
            },
        }
    }

    /// Whether `account` trusts `trustee` at `at`.
    pub fn is_trusted(&self, account: AccountId, trustee: AccountId, at: Option<BlockHash>) -> (r:
        Result<bool, QueryFailed>)
        requires
            self.client().wf(),
        ensures
            match self.client().state_at(at) {
                Some(p) => r == Ok::<bool, QueryFailed>(trusts(p.relation(), account, trustee)),
                None => r == Err::<bool, QueryFailed>(QueryFailed { code: 1, block: at->Some_0 }),
            },
    {
        let p = self.state(at)?;
        Ok(p.is_trusted(account, trustee))
    }

    /// Whether some account that `account` trusts trusts `trustee` at `at`.
    pub fn is_trusted_only_deep(
        &self,
        account: AccountId,
        trustee: AccountId,
        at: Option<BlockHash>,
    ) -> (r: Result<bool, QueryFailed>)
        requires
            self.client().wf(),
        ensures
            match self.client().state_at(at) {
                Some(p) => r == Ok::<bool, QueryFailed>(
                    trusts_only_deep(p.relation(), account, trustee),
                ),
                None => r == Err::<bool, QueryFailed>(QueryFailed { code: 1, block: at->Some_0 }),
            },
    {
        let p = self.state(at)?;
        Ok(p.is_trusted_only_deep(account, trustee))
    }

    /// Whether `account` trusts `trustee` directly or over two hops at `at`.
    pub fn is_trusted_deep(&self, account: AccountId, trustee: AccountId, at: Option<BlockHash>) -> (r:
        Result<bool, QueryFailed>)
        requires
            self.client().wf(),
        ensures
            match self.client().state_at(at) {
                Some(p) => r == Ok::<bool, QueryFailed>(trusts_deep(p.relation(), account, trustee)),
                None => r == Err::<bool, QueryFailed>(QueryFailed { code: 1, block: at->Some_0 }),
            },
    {
        let p = self.state(at)?;
        Ok(p.is_trusted_deep(account, trustee))
    }

    /// The accounts that `account` trusts at `at`, in packed order.
    pub fn trusted_by(&self, account: AccountId, at: Option<BlockHash>) -> (r: Result<
        Vec<AccountId>,
        QueryFailed,
    >)
        requires
            self.client().wf(),
        ensures
            match self.client().state_at(at) {
                Some(p) => r is Ok && r->Ok_0@ == p.relation()[account],
                None => r == Err::<Vec<AccountId>, QueryFailed>(
                    QueryFailed { code: 1, block: at->Some_0 },
                ),
            },
    {
        let p = self.state(at)?;
        Ok(p.trusted_by(account))
    }

    /// The accounts that `account` trusts and that trust `other` at `at`.
    pub fn trusted_by_that_trust(
        &self,
        account: AccountId,
        other: AccountId,
        at: Option<BlockHash>,
    ) -> (r: Result<Vec<AccountId>, QueryFailed>)
        requires
            self.client().wf(),
        ensures
            match self.client().state_at(at) {
                Some(p) => r is Ok && r->Ok_0@ == trusted_that_trust(p.relation(), account, other),
                None => r == Err::<Vec<AccountId>, QueryFailed>(
                    QueryFailed { code: 1, block: at->Some_0 },
                ),
            },
    {
        let p = self.state(at)?;
        Ok(p.trusted_by_that_trust(account, other))
    }
}

} // verus!
