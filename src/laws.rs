//! Laws that relate several calls of `trust_account` and `untrust_account`.
use vstd::prelude::*;

use crate::pallet::{
    no_trust, trust_outcome, trusted, trusts, untrust_outcome, untrusted, Error, Pallet, Relation,
};
use crate::trust_list::{lemma_swap_remove, position_in, swap_remove};
use crate::AccountId;

verus! {

broadcast use vstd::seq_lib::group_seq_properties;

/// A request to change the relation: `(true, a, b)` asks that `a` trust
/// `b`, `(false, a, b)` that `a` stop trusting `b`.
pub type Request = (bool, AccountId, AccountId);

/// The relation after one request.
pub open spec fn apply(r: Relation, q: Request) -> Relation {
    if q.0 {
        trusted(r, q.1, q.2)
    } else {
        untrusted(r, q.1, q.2)
    }
}

/// The relation after the requests `qs`, in order.
pub open spec fn replay(r: Relation, qs: Seq<Request>) -> Relation
    decreases qs.len(),
{
    if qs.len() == 0 {
        r
    } else {
        apply(replay(r, qs.drop_last()), qs.last())
    }
}

/// The relation after `a` asks to trust each of `bs`, in order.
pub open spec fn trust_each(r: Relation, a: AccountId, bs: Seq<AccountId>) -> Relation
    decreases bs.len(),
{
    if bs.len() == 0 {
        r
    } else {
        trusted(trust_each(r, a, bs.drop_last()), a, bs.last())
    }
}

/// The relation after `a` asks to stop trusting each of `bs`, in order.
pub open spec fn untrust_each(r: Relation, a: AccountId, bs: Seq<AccountId>) -> Relation
    decreases bs.len(),
{
    if bs.len() == 0 {
        r
    } else {
        untrusted(untrust_each(r, a, bs.drop_last()), a, bs.last())
    }
}

/// Trusting an account that is not trusted yet and then untrusting it
/// gives back the relation as it was: the same count, the same trustees in
/// the same order, and the account no longer trusted.
pub proof fn lemma_trust_untrust_round_trip(p: &Pallet, a: AccountId, b: AccountId)
    requires
        p.wf(),
        !trusts(p.relation(), a, b),
    ensures
        untrusted(trusted(p.relation(), a, b), a, b) == p.relation(),
        untrusted(trusted(p.relation(), a, b), a, b)[a].len() == p.relation()[a].len(),
        !trusts(untrusted(trusted(p.relation(), a, b), a, b), a, b),
{
    let r = p.relation();
    p.lemma_index_consistent(a);
    if a != b {
        let s = r[a].push(b);
        let r1 = r.insert(a, s);
        assert(s[s.len() - 1] == b);
        assert(trusts(r1, a, b));
        let i = position_in(s, b);
        assert(0 <= i < s.len() && s[i] == b);
        if i != s.len() - 1 {
            assert(r[a][i] == b);
        }
        assert(swap_remove(s, b) =~= r[a]);
        assert(untrusted(r1, a, b) =~= r);
    }
}

/// An account cannot trust itself: the request fails and changes nothing.
pub proof fn lemma_trust_self_rejected(r: Relation, a: AccountId)
    ensures
        trust_outcome(r, a, a) == Err::<(), Error>(Error::TrustSelf),
        trusted(r, a, a) == r,
{
}

/// Once `a` has asked to trust another account `b`, asking again fails
/// with `AlreadyTrusted`, whether or not the first request succeeded.
pub proof fn lemma_trust_twice_rejected(r: Relation, a: AccountId, b: AccountId)
    requires
        a != b,
    ensures
        trust_outcome(trusted(r, a, b), a, b) == Err::<(), Error>(Error::AlreadyTrusted),
{
    if !trusts(r, a, b) {
        let s = r[a].push(b);
        assert(s[s.len() - 1] == b);
    }
}

/// Only a request of `x` to trust `y` makes `x` trust `y`: no other
/// request creates that edge.
pub proof fn lemma_only_trust_creates(r: Relation, q: Request, a: AccountId, b: AccountId)
    requires
        q != (true, a, b),
        !trusts(r, a, b),
    ensures
        !trusts(apply(r, q), a, b),
{
    let x = q.1;
    let y = q.2;
    if x == a {
        if q.0 {
            if x != y && !trusts(r, x, y) {
                let s = r[a].push(y);
                if s.contains(b) {
                    let k = choose|k: int| 0 <= k < s.len() && s[k] == b;
                    assert(r[a][k] == b);
                }
            }
        } else if trusts(r, x, y) {
            let s = r[a];
            let t = swap_remove(s, y);
            let i = position_in(s, y);
            if t.contains(b) {
                let k = choose|k: int| 0 <= k < t.len() && t[k] == b;
                if k == i {
                    assert(s[s.len() - 1] == b);
                } else {
                    assert(s[k] == b);
                }
            }
        }
    }
}

/// From the empty relation, `a` does not trust `b` unless some request
/// asked for it; so untrusting `b` then fails with `NotTrusted`.
pub proof fn lemma_untrust_needs_prior_trust(qs: Seq<Request>, a: AccountId, b: AccountId)
    requires
        forall|k: int| 0 <= k < qs.len() ==> qs[k] != (true, a, b),
    ensures
        !trusts(replay(no_trust(), qs), a, b),
        untrust_outcome(replay(no_trust(), qs), a, b) == Err::<(), Error>(Error::NotTrusted),
    decreases qs.len(),
{
    if qs.len() > 0 {
        lemma_untrust_needs_prior_trust(qs.drop_last(), a, b);
        lemma_only_trust_creates(replay(no_trust(), qs.drop_last()), qs.last(), a, b);
    }
}

/// Trusting distinct accounts, none of them `a` and none trusted yet,
/// appends them in order.
proof fn lemma_trust_each(r: Relation, a: AccountId, bs: Seq<AccountId>)
    requires
        bs.no_duplicates(),
        !bs.contains(a),
        forall|x: AccountId| bs.contains(x) ==> !r[a].contains(x),
    ensures
        trust_each(r, a, bs)[a] == r[a] + bs,
    decreases bs.len(),
{
    if bs.len() > 0 {
        let init = bs.drop_last();
        let l = bs.last();
        assert forall|x: AccountId| init.contains(x) implies bs.contains(x) by {
            let k = choose|k: int| 0 <= k < init.len() && init[k] == x;
            assert(bs[k] == x);
        }
        lemma_trust_each(r, a, init);
        let r1 = trust_each(r, a, init);
        assert(bs[bs.len() - 1] == l);
        if (r[a] + init).contains(l) {
            let k = choose|k: int| 0 <= k < (r[a] + init).len() && (r[a] + init)[k] == l;
            assert(bs.contains(l));
            if k < r[a].len() {
                assert(r[a][k] == l);
                assert(r[a].contains(l));
            } else {
                assert(bs[k - r[a].len()] == l);
                assert(bs[k - r[a].len()] == bs[bs.len() - 1]);
            }
        }
        assert(r[a] + init + seq![l] =~= r[a] + bs);
        assert(r1[a].push(l) =~= r[a] + bs);
        assert(!trusts(r1, a, l));
    } else {
        assert(r[a] + bs =~= r[a]);
    }
}

/// Untrusting distinct accounts that `a` trusts leaves exactly the others.
proof fn lemma_untrust_each(r: Relation, a: AccountId, bs: Seq<AccountId>)
    requires
        r[a].no_duplicates(),
        bs.no_duplicates(),
        forall|x: AccountId| bs.contains(x) ==> r[a].contains(x),
    ensures
        untrust_each(r, a, bs)[a].no_duplicates(),
        untrust_each(r, a, bs)[a].len() == r[a].len() - bs.len(),
        forall|x: AccountId|
            #[trigger] untrust_each(r, a, bs)[a].contains(x) <==> r[a].contains(x) && !bs.contains(
                x,
            ),
    decreases bs.len(),
{
    if bs.len() > 0 {
        let init = bs.drop_last();
        let l = bs.last();
        assert(bs[bs.len() - 1] == l);
        assert forall|x: AccountId| bs.contains(x) <==> init.contains(x) || x == l by {
            if bs.contains(x) {
                let k = choose|k: int| 0 <= k < bs.len() && bs[k] == x;
                if k < init.len() {
                    assert(init[k] == x);
                }
            }
            if init.contains(x) {
                let k = choose|k: int| 0 <= k < init.len() && init[k] == x;
                assert(bs[k] == x);
            }
        }
        if init.contains(l) {
            let k = choose|k: int| 0 <= k < init.len() && init[k] == l;
            assert(bs[k] == bs[bs.len() - 1]);
        }
        lemma_untrust_each(r, a, init);
        let r1 = untrust_each(r, a, init);
        assert(r1[a].contains(l));
        lemma_swap_remove(r1[a], l);
        let r2 = untrust_each(r, a, bs);
        assert(r2[a] == swap_remove(r1[a], l));
        assert forall|x: AccountId| #[trigger] r2[a].contains(x) <==> r[a].contains(x) && !bs.contains(x) by {
            assert(bs.contains(x) <==> init.contains(x) || x == l);
            assert(r1[a].contains(x) <==> r[a].contains(x) && !init.contains(x));
            if x != l {
                assert(r2[a].contains(x) <==> r1[a].contains(x));
            } else {
                assert(!r2[a].contains(x));
            }
        }
    }
}

/// Trusting distinct accounts from `a`, which trusted nobody, and then
/// untrusting all of them in any order leaves `a` trusting nobody.
/// `order` is a reordering of `bs`: as long, without duplicates, and made
/// of the accounts of `bs`.
pub proof fn lemma_full_drain(p: &Pallet, a: AccountId, bs: Seq<AccountId>, order: Seq<AccountId>)
    requires
        p.wf(),
        p.relation()[a].len() == 0,
        bs.no_duplicates(),
        !bs.contains(a),
        order.len() == bs.len(),
        order.no_duplicates(),
        forall|x: AccountId| order.contains(x) ==> bs.contains(x),
    ensures
        untrust_each(trust_each(p.relation(), a, bs), a, order)[a].len() == 0,
        forall|x: AccountId|
            bs.contains(x) ==> !trusts(untrust_each(trust_each(p.relation(), a, bs), a, order), a, x),
{
    let r = p.relation();
    lemma_trust_each(r, a, bs);
    let r1 = trust_each(r, a, bs);
    assert(r1[a] =~= bs);
    lemma_untrust_each(r1, a, order);
}

} // verus!
