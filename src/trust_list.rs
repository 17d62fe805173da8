//! The trustees of one account: a dense list with a reverse index, so that
//! membership, insertion and removal take constant time.
use vstd::prelude::*;

use crate::AccountId;

verus! {

broadcast use vstd::std_specs::hash::group_hash_axioms;

/// The position of `b` in `s`, where `s` holds it.
pub open spec fn position_in(s: Seq<AccountId>, b: AccountId) -> int {
    choose|i: int| 0 <= i < s.len() && s[i] == b
}

/// `s` with `b` taken out by moving the last element into the slot that
/// `b` held.
pub open spec fn swap_remove(s: Seq<AccountId>, b: AccountId) -> Seq<AccountId> {
    s.update(position_in(s, b), s.last()).drop_last()
}

/// Taking an element out of a list without duplicates shortens it by one,
/// drops that element alone, and leaves no duplicates.
pub proof fn lemma_swap_remove(s: Seq<AccountId>, b: AccountId)
    requires
        s.no_duplicates(),
        s.contains(b),
    ensures
        swap_remove(s, b).len() == s.len() - 1,
        swap_remove(s, b).no_duplicates(),
        !swap_remove(s, b).contains(b),
        forall|c: AccountId| c != b ==> (swap_remove(s, b).contains(c) <==> s.contains(c)),
{
    let i = position_in(s, b);
    let last = s.len() - 1;
    let t = swap_remove(s, b);
    assert(0 <= i < s.len() && s[i] == b);
    assert forall|j: int, k: int| 0 <= j < t.len() && 0 <= k < t.len() && j != k implies t[j]
        != t[k] by {
        let sj = if j == i { last } else { j };
        let sk = if k == i { last } else { k };
        assert(t[j] == s[sj] && t[k] == s[sk]);
    }
    if t.contains(b) {
        let k = choose|k: int| 0 <= k < t.len() && t[k] == b;
        if k == i {
            assert(s[last] == s[i]);
        } else {
            assert(s[k] == s[i]);
        }
    }
    assert forall|c: AccountId| c != b implies (t.contains(c) <==> s.contains(c)) by {
        if s.contains(c) {
            let k = choose|k: int| 0 <= k < s.len() && s[k] == c;
            if k == last {
                assert(t[i] == c);
            } else {
                assert(t[k] == c);
            }
        }
        if t.contains(c) {
            let k = choose|k: int| 0 <= k < t.len() && t[k] == c;
            if k == i {
                assert(s[last] == c);
            } else {
                assert(s[k] == c);
            }
        }
    }
}

/// The accounts that one account trusts.
///
/// `trustees` is packed: positions `0 .. len` are all occupied. Removal
/// moves the last trustee into the freed slot, so positions are not stable.
pub struct TrustList {
    trustees: Vec<AccountId>,
    position_of: std::collections::HashMap<AccountId, usize>,
}

impl View for TrustList {
    type V = Seq<AccountId>;

    closed spec fn view(&self) -> Seq<AccountId> {
        self.trustees@
    }
}

impl TrustList {
    /// The reverse index maps each trustee to its exact position, and
    /// holds nothing else; hence no trustee occurs twice.
    pub closed spec fn wf(&self) -> bool {
        &&& forall|i: int|
            0 <= i < self.trustees@.len() ==> {
                &&& #[trigger] self.position_of@.contains_key(self.trustees@[i])
                &&& self.position_of@[self.trustees@[i]] == i
            }
        &&& forall|b: AccountId|
            #[trigger] self.position_of@.contains_key(b) ==> {
                &&& self.position_of@[b] < self.trustees@.len()
                &&& self.trustees@[self.position_of@[b] as int] == b
            }
    }

    /// What the reverse index records for `b`.
    pub closed spec fn index_of(&self, b: AccountId) -> Option<usize> {
        if self.position_of@.contains_key(b) {
            Some(self.position_of@[b])
        } else {
            None
        }
    }

    /// The reverse index resolves each trustee to its exact position, and
    /// knows no other account.
    pub proof fn lemma_index_of(&self)
        requires
            self.wf(),
        ensures
            forall|i: int| 0 <= i < self@.len() ==> #[trigger] self.index_of(self@[i]) == Some(i as usize),
            forall|b: AccountId| #[trigger] self.index_of(b) is Some <==> self@.contains(b),
    {
        assert forall|i: int| 0 <= i < self@.len() implies #[trigger] self.index_of(self@[i]) == Some(i as usize) by {
            assert(self.position_of@.contains_key(self.trustees@[i]));
        }
        assert forall|b: AccountId| #[trigger] self.index_of(b) is Some <==> self@.contains(b) by {
            if self@.contains(b) {
                let k = choose|k: int| 0 <= k < self@.len() && self@[k] == b;
                assert(self.position_of@.contains_key(self.trustees@[k]));
            }
            if self.index_of(b) is Some {
                assert(self@[self.position_of@[b] as int] == b);
            }
        }
    }

    /// No account is listed twice.
    pub proof fn lemma_no_duplicates(&self)
        requires
            self.wf(),
        ensures
            self@.no_duplicates(),
    {
        assert forall|i: int, j: int|
            0 <= i < self@.len() && 0 <= j < self@.len() && i != j implies self@[i]
            != self@[j] by {
            if self@[i] == self@[j] {
                assert(self.position_of@.contains_key(self.trustees@[i]));
                assert(self.position_of@.contains_key(self.trustees@[j]));
            }
        }
    }

    /// The empty list.
    pub fn new() -> (r: Self)
        ensures
            r.wf(),
            r@ == Seq::<AccountId>::empty(),
    {
        TrustList { trustees: Vec::new(), position_of: std::collections::HashMap::new() }
    }

    /// Whether `b` is among the trustees.
    pub fn contains(&self, b: AccountId) -> (r: bool)
        requires
            self.wf(),
        ensures
            r == self@.contains(b),
    {
        let r = self.position_of.contains_key(&b);
        proof {
            if self@.contains(b) {
                let i = choose|i: int| 0 <= i < self@.len() && self@[i] == b;
                assert(self.position_of@.contains_key(self.trustees@[i]));
            }
            if r {
                assert(self@[self.position_of@[b] as int] == b);
            }
        }
        r
    }

    /// The number of trustees.
    pub fn count(&self) -> (r: usize)
        ensures
            r == self@.len(),
    {
        self.trustees.len()
    }

    /// The trustee at position `i`.
    pub fn get(&self, i: usize) -> (r: AccountId)
        requires
            i < self@.len(),
        ensures
            r == self@[i as int],
    {
        self.trustees[i]
    }

    /// The position of `b`, if it is a trustee.
    pub fn position(&self, b: AccountId) -> (r: Option<usize>)
        ensures
            r == self.index_of(b),
    {
        match self.position_of.get(&b) {
            Some(i) => Some(*i),
            None => None,
        }
    }

    /// The trustees, in their packed order.
    pub fn to_vec(&self) -> (r: Vec<AccountId>)
        ensures
            r@ == self@,
    {
        self.trustees.clone()
    }

    /// Appends `b`, which must not be present yet.
    pub fn insert(&mut self, b: AccountId)
        requires
            old(self).wf(),
            !old(self)@.contains(b),
        ensures
            final(self).wf(),
            final(self)@ == old(self)@.push(b),
    {
        let n = self.trustees.len();
        self.trustees.push(b);
        self.position_of.insert(b, n);
        proof {
            assert forall|c: AccountId| #[trigger] self.position_of@.contains_key(c) implies {
                &&& self.position_of@[c] < self.trustees@.len()
                &&& self.trustees@[self.position_of@[c] as int] == c
            } by {
                if c != b {
                    assert(old(self).position_of@.contains_key(c));
                }
            }
            assert forall|i: int| 0 <= i < self.trustees@.len() implies {
                &&& #[trigger] self.position_of@.contains_key(self.trustees@[i])
                &&& self.position_of@[self.trustees@[i]] == i
            } by {
                if i < n {
                    assert(old(self).trustees@[i] == self.trustees@[i]);
                    assert(old(self)@.contains(old(self).trustees@[i]));
                }
            }
        }
    }

    /// Removes `b`, which must be present, by moving the last trustee into
    /// its slot.
    pub fn remove(&mut self, b: AccountId)
        requires
            old(self).wf(),
            old(self)@.contains(b),
        ensures
            final(self).wf(),
            final(self)@ == swap_remove(old(self)@, b),
    {
        let ghost pre = self@;
        proof {
            old(self).lemma_no_duplicates();
            let k = position_in(pre, b);
            assert(self.position_of@.contains_key(self.trustees@[k]));
        }
        let i: usize = *self.position_of.get(&b).unwrap();
        let last: usize = self.trustees.len() - 1;
        if i != last {
            let moved = self.trustees[last];
            self.trustees.set(i, moved);
            self.position_of.insert(moved, i);
        }
        self.trustees.pop();
        self.position_of.remove(&b);
        proof {
            let k = position_in(pre, b);
            assert(k == i);
            assert(self@ =~= swap_remove(pre, b));
            lemma_swap_remove(pre, b);
            assert forall|c: AccountId| #[trigger] self.position_of@.contains_key(c) implies {
                &&& self.position_of@[c] < self.trustees@.len()
                &&& self.trustees@[self.position_of@[c] as int] == c
            } by {
                assert(old(self).position_of@.contains_key(c));
                if c != pre.last() {
                    assert(old(self).trustees@[old(self).position_of@[c] as int] == c);
                }
            }
            assert forall|k: int| 0 <= k < self.trustees@.len() implies {
                &&& #[trigger] self.position_of@.contains_key(self.trustees@[k])
                &&& self.position_of@[self.trustees@[k]] == k
            } by {
                if k == i {
                    assert(old(self).position_of@.contains_key(pre[last as int]));
                } else {
                    assert(old(self).position_of@.contains_key(pre[k]));
                }
            }
        }
    }
}

} // verus!
