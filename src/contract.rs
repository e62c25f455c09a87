//! The top-level index: every stash by id, and which stashes each account created.
//! An account appears in the index exactly while it is listed with a stash that
//! still exists.

use vstd::prelude::*;
use crate::account::AccountName;
use crate::error::StashError;
use crate::stash::{
    add_liquidity_outcome, add_vault_outcome, authorize_outcome, deposit_outcome,
    remove_liquidity_outcome, restore_outcome, revoke_outcome, withdraw_outcome, Stash,
};
use crate::token::AllowList;
use crate::token_vault::TokenVault;

verus! {

/// Account `account` created stash `stash_id`.
pub struct Membership {
    pub account: AccountName,
    pub stash_id: u64,
}

/// No two stashes of `s` have the same id.
pub open spec fn ids_unique(s: Seq<Stash>) -> bool {
    forall|i: int, j: int|
        0 <= i < j < s.len() ==> (#[trigger] s[i]).stash_id() != (#[trigger] s[j]).stash_id()
}

/// The stashes of `s`, keyed by id.
pub open spec fn stash_map(s: Seq<Stash>) -> Map<u64, Stash> {
    Map::new(
        |id: u64| exists|i: int| 0 <= i < s.len() && s[i].stash_id() == id,
        |id: u64| s[choose|i: int| 0 <= i < s.len() && s[i].stash_id() == id],
    )
}

/// The stash ids that the memberships `m` list for account `a`.
pub open spec fn listed(m: Seq<Membership>, a: Seq<char>) -> Set<u64> {
    Set::new(|id: u64| exists|i: int| 0 <= i < m.len() && m[i].account@ == a && m[i].stash_id == id)
}

proof fn lemma_stash_map_at(s: Seq<Stash>, i: int)
    requires
        ids_unique(s),
        0 <= i < s.len(),
    ensures
        stash_map(s).contains_key(s[i].stash_id()),
        stash_map(s)[s[i].stash_id()] == s[i],
{
    let id = s[i].stash_id();
    assert(stash_map(s).contains_key(id));
    let j = choose|j: int| 0 <= j < s.len() && s[j].stash_id() == id;
    if j != i {
        if j < i {
            assert(s[j].stash_id() != s[i].stash_id());
        } else {
            assert(s[i].stash_id() != s[j].stash_id());
        }
    }
}

proof fn lemma_stash_map_set(s: Seq<Stash>, i: int, v: Stash)
    requires
        ids_unique(s),
        0 <= i < s.len(),
        v.stash_id() == s[i].stash_id(),
    ensures
        ids_unique(s.update(i, v)),
        stash_map(s.update(i, v)) == stash_map(s).insert(v.stash_id(), v),
{
    let u = s.update(i, v);
    assert forall|p: int, q: int| 0 <= p < q < u.len() implies (#[trigger] u[p]).stash_id() != (
    #[trigger] u[q]).stash_id() by {
        assert(s[p].stash_id() != s[q].stash_id());
    }
    lemma_stash_map_at(u, i);
    assert forall|k: u64| #[trigger]
        stash_map(u).contains_key(k) == stash_map(s).insert(v.stash_id(), v).contains_key(k) by {
        if stash_map(s).contains_key(k) {
            let j = choose|j: int| 0 <= j < s.len() && s[j].stash_id() == k;
            assert(u[j].stash_id() == k);
        }
        if stash_map(u).contains_key(k) {
            let j = choose|j: int| 0 <= j < u.len() && u[j].stash_id() == k;
            assert(s[j].stash_id() == k);
        }
    }
    assert forall|k: u64| stash_map(u).contains_key(k) && k != v.stash_id() implies #[trigger]
        stash_map(u)[k] == stash_map(s)[k] by {
        let j = choose|j: int| 0 <= j < u.len() && u[j].stash_id() == k;
        lemma_stash_map_at(u, j);
        lemma_stash_map_at(s, j);
    }
    assert(stash_map(u) =~= stash_map(s).insert(v.stash_id(), v));
}

proof fn lemma_stash_map_push(s: Seq<Stash>, v: Stash)
    requires
        ids_unique(s),
        !stash_map(s).contains_key(v.stash_id()),
    ensures
        ids_unique(s.push(v)),
        stash_map(s.push(v)) == stash_map(s).insert(v.stash_id(), v),
{
    let u = s.push(v);
    assert forall|p: int, q: int| 0 <= p < q < u.len() implies (#[trigger] u[p]).stash_id() != (
    #[trigger] u[q]).stash_id() by {
        if q < s.len() {
            assert(s[p].stash_id() != s[q].stash_id());
        } else {
            assert(u[p] == s[p]);
            assert(!(0 <= p < s.len() && s[p].stash_id() == v.stash_id()));
        }
    }
    lemma_stash_map_at(u, s.len() as int);
    assert forall|k: u64| #[trigger]
        stash_map(u).contains_key(k) == stash_map(s).insert(v.stash_id(), v).contains_key(k) by {
        if stash_map(s).contains_key(k) {
            let j = choose|j: int| 0 <= j < s.len() && s[j].stash_id() == k;
            assert(u[j] == s[j]);
        }
        if stash_map(u).contains_key(k) && k != v.stash_id() {
            let j = choose|j: int| 0 <= j < u.len() && u[j].stash_id() == k;
            assert(s[j] == u[j]);
        }
    }
    assert forall|k: u64| stash_map(u).contains_key(k) && k != v.stash_id() implies #[trigger]
        stash_map(u)[k] == stash_map(s)[k] by {
        let j = choose|j: int| 0 <= j < u.len() && u[j].stash_id() == k;
        assert(u[j] == s[j]);
        lemma_stash_map_at(u, j);
        lemma_stash_map_at(s, j);
    }
    assert(stash_map(u) =~= stash_map(s).insert(v.stash_id(), v));
}

proof fn lemma_stash_map_remove(s: Seq<Stash>, i: int)
    requires
        ids_unique(s),
        0 <= i < s.len(),
    ensures
        ids_unique(s.remove(i)),
        stash_map(s.remove(i)) == stash_map(s).remove(s[i].stash_id()),
{
    let u = s.remove(i);
    let id = s[i].stash_id();
    assert forall|p: int, q: int| 0 <= p < q < u.len() implies (#[trigger] u[p]).stash_id() != (
    #[trigger] u[q]).stash_id() by {
        let pp = if p < i { p } else { p + 1 };
        let qq = if q < i { q } else { q + 1 };
        assert(u[p] == s[pp] && u[q] == s[qq]);
        assert(s[pp].stash_id() != s[qq].stash_id());
    }
    assert forall|k: u64| #[trigger]
        stash_map(u).contains_key(k) == stash_map(s).remove(id).contains_key(k) by {
        if stash_map(s).contains_key(k) && k != id {
            let j = choose|j: int| 0 <= j < s.len() && s[j].stash_id() == k;
            assert(j != i);
            if j < i {
                assert(u[j] == s[j]);
            } else {
                assert(u[j - 1] == s[j]);
            }
        }
        if stash_map(u).contains_key(k) {
            let j = choose|j: int| 0 <= j < u.len() && u[j].stash_id() == k;
            let jj = if j < i { j } else { j + 1 };
            assert(u[j] == s[jj]);
            assert(s[jj].stash_id() != s[i].stash_id()) by {
                if jj < i {
                    assert(s[jj].stash_id() != s[i].stash_id());
                } else {
                    assert(s[i].stash_id() != s[jj].stash_id());
                }
            }
        }
    }
    assert forall|k: u64| stash_map(u).contains_key(k) implies #[trigger] stash_map(u)[k]
        == stash_map(s)[k] by {
        let j = choose|j: int| 0 <= j < u.len() && u[j].stash_id() == k;
        let jj = if j < i { j } else { j + 1 };
        assert(u[j] == s[jj]);
        lemma_stash_map_at(u, j);
        lemma_stash_map_at(s, jj);
    }
    assert(stash_map(u) =~= stash_map(s).remove(id));
}

pub struct Contract {
    stashes: Vec<Stash>,
    accounts: Vec<Membership>,
    next_id: u64,
    allow_list: AllowList,
}

impl Contract {
    /// The stashes, keyed by id.
    pub closed spec fn stashes(&self) -> Map<u64, Stash> {
        stash_map(self.stashes@)
    }

    /// The ids of the stashes that account `a` created.
    pub closed spec fn stashes_of(&self, a: Seq<char>) -> Set<u64> {
        listed(self.accounts@, a)
    }

    /// The assets vaults may be opened for.
    pub closed spec fn allowed(&self) -> Set<Seq<char>> {
        self.allow_list@
    }

    /// The id the next stash gets.
    pub closed spec fn next_stash_id(&self) -> u64 {
        self.next_id
    }

    pub closed spec fn wf(&self) -> bool {
        &&& ids_unique(self.stashes@)
        &&& forall|i: int| 0 <= i < self.stashes@.len() ==> (#[trigger] self.stashes@[i]).wf()
        &&& forall|i: int|
            0 <= i < self.stashes@.len() ==> (#[trigger] self.stashes@[i]).stash_id() < self.next_id
        &&& forall|i: int|
            0 <= i < self.accounts@.len() ==> stash_map(self.stashes@).contains_key(
                (#[trigger] self.accounts@[i]).stash_id,
            )
    }

    /// The index lists only stashes that exist, and every stash is well formed.
    pub proof fn lemma_index_consistent(&self, a: Seq<char>, id: u64)
        requires
            self.wf(),
            self.stashes_of(a).contains(id),
        ensures
            self.stashes().contains_key(id),
    {
        let i = choose|i: int|
            0 <= i < self.accounts@.len() && self.accounts@[i].account@ == a
                && self.accounts@[i].stash_id == id;
        assert(stash_map(self.stashes@).contains_key(self.accounts@[i].stash_id));
    }

    /// Every stash of a well-formed index is well formed and filed under its own id.
    pub proof fn lemma_stashes_wf(&self, id: u64)
        requires
            self.wf(),
            self.stashes().contains_key(id),
        ensures
            self.stashes()[id].wf(),
            self.stashes()[id].stash_id() == id,
    {
        let i = choose|i: int| 0 <= i < self.stashes@.len() && self.stashes@[i].stash_id() == id;
        lemma_stash_map_at(self.stashes@, i);
    }

    /// An empty index whose vaults may be opened for the assets of `allow_list`.
    pub fn new(allow_list: AllowList) -> (r: Contract)
        ensures
            r.wf(),
            r.stashes() == Map::<u64, Stash>::empty(),
            forall|a: Seq<char>| r.stashes_of(a) == Set::<u64>::empty(),
            r.allowed() == allow_list@,
            r.next_stash_id() == 0,
    {
        let r = Contract { stashes: Vec::new(), accounts: Vec::new(), next_id: 0, allow_list };
        assert(r.stashes() =~= Map::<u64, Stash>::empty());
        assert forall|a: Seq<char>| r.stashes_of(a) == Set::<u64>::empty() by {
            assert(r.stashes_of(a) =~= Set::<u64>::empty());
        }
        r
    }

    /// Whether the index holds no stash and lists no account.
    pub fn is_empty(&self) -> (r: bool)
        ensures
            r == (self.stashes() == Map::<u64, Stash>::empty() && forall|a: Seq<char>|
                #[trigger] self.stashes_of(a) == Set::<u64>::empty()),
    {
        proof {
            if self.stashes@.len() == 0 {
                assert(self.stashes() =~= Map::<u64, Stash>::empty());
            } else {
                assert(self.stashes().contains_key(self.stashes@[0].stash_id()));
                assert(!Map::<u64, Stash>::empty().contains_key(self.stashes@[0].stash_id()));
            }
            if self.accounts@.len() == 0 {
                assert forall|a: Seq<char>| #[trigger] self.stashes_of(a) == Set::<u64>::empty() by {
                    assert(self.stashes_of(a) =~= Set::<u64>::empty());
                }
            } else {
                let m = self.accounts@[0];
                assert(self.stashes_of(m.account@).contains(m.stash_id));
                assert(!Set::<u64>::empty().contains(m.stash_id));
            }
        }
        self.stashes.len() == 0 && self.accounts.len() == 0
    }

    pub fn allow_list(&self) -> (r: &AllowList)
        ensures
            r@ == self.allowed(),
    {
        &self.allow_list
    }

    fn find(&self, stash_id: u64) -> (r: Option<usize>)
        requires
            self.wf(),
        ensures
            match r {
                Some(i) => i < self.stashes@.len() && self.stashes@[i as int].stash_id() == stash_id
                    && self.stashes().contains_key(stash_id) && self.stashes()[stash_id]
                    == self.stashes@[i as int],
                None => !self.stashes().contains_key(stash_id),
            },
    {
        let mut i: usize = 0;
        while i < self.stashes.len()
            invariant
                self.wf(),
                i <= self.stashes@.len(),
                forall|j: int| 0 <= j < i ==> (#[trigger] self.stashes@[j]).stash_id() != stash_id,
            decreases self.stashes@.len() - i,
        {
            if self.stashes[i].id() == stash_id {
                proof {
                    lemma_stash_map_at(self.stashes@, i as int);
                }
                return Some(i);
            }
            i = i + 1;
        }
        None
    }

    /// The stash `stash_id`, if it exists.
    pub fn get_stash(&self, stash_id: u64) -> (r: Option<&Stash>)
        requires
            self.wf(),
        ensures
            r is Some <==> self.stashes().contains_key(stash_id),
            r matches Some(s) ==> *s == self.stashes()[stash_id] && s.wf(),
    {
        match self.find(stash_id) {
            Some(i) => Some(&self.stashes[i]),
            None => None,
        }
    }

    /// `caller` creates a stash named `name`, in which it is the only authorized
    /// contributor, and is listed with it. Returns the new stash's id.
    pub fn create_stash(&mut self, caller: &AccountName, name: String) -> (r: Result<u64, StashError>)
        requires
            old(self).wf(),
        ensures
            final(self).wf(),
            r is Ok <==> old(self).next_stash_id() < u64::MAX,
            r is Err ==> r == Err::<u64, StashError>(StashError::ArithmeticOverflow) && *final(self)
                == *old(self),
            r matches Ok(id) ==> {
                &&& id == old(self).next_stash_id()
                &&& final(self).next_stash_id() == old(self).next_stash_id() + 1
                &&& !old(self).stashes().contains_key(id)
                &&& final(self).stashes() == old(self).stashes().insert(id, final(self).stashes()[id])
                &&& final(self).stashes()[id].stash_id() == id
                &&& final(self).stashes()[id].stash_name() == name@
                &&& final(self).stashes()[id].authorized() == set![caller@]
                &&& final(self).stashes()[id].vaults() == Map::<Seq<char>, TokenVault>::empty()
                &&& forall|h: Seq<char>, a: Seq<char>| final(self).stashes()[id].pending(h, a) == 0
                &&& final(self).stashes_of(caller@) == old(self).stashes_of(caller@).insert(id)
                &&& forall|a: Seq<char>|
                    a != caller@ ==> final(self).stashes_of(a) == old(self).stashes_of(a)
                &&& final(self).allowed() == old(self).allowed()
            },
    {
        if self.next_id == u64::MAX {
            return Err(StashError::ArithmeticOverflow);
        }
        let id = self.next_id;
        let stash = Stash::new(id, name, caller.clone());
        let ghost before = self.stashes@;
        let ghost members = self.accounts@;
        proof {
            if stash_map(before).contains_key(id) {
                let j = choose|j: int| 0 <= j < before.len() && before[j].stash_id() == id;
                assert(before[j].stash_id() < self.next_id);
            }
            lemma_stash_map_push(before, stash);
            lemma_stash_map_at(before.push(stash), before.len() as int);
        }
        self.stashes.push(stash);
        let entry = Membership { account: caller.clone(), stash_id: id };
        let ghost new_entry = entry;
        self.accounts.push(entry);
        self.next_id = self.next_id + 1;
        proof {
            let m = self.accounts@;
            assert(m == members.push(new_entry));
            assert forall|i: int| 0 <= i < m.len() implies stash_map(self.stashes@).contains_key(
                (#[trigger] m[i]).stash_id,
            ) by {
                if i < members.len() {
                    assert(m[i] == members[i]);
                    assert(stash_map(before).contains_key(members[i].stash_id));
                }
            }
            assert forall|i: int| 0 <= i < self.stashes@.len() implies (
            #[trigger] self.stashes@[i]).stash_id() < self.next_id by {
                if i < before.len() {
                    assert(self.stashes@[i] == before[i]);
                }
            }
            assert forall|i: int| 0 <= i < self.stashes@.len() implies (
            #[trigger] self.stashes@[i]).wf() by {
                if i < before.len() {
                    assert(self.stashes@[i] == before[i]);
                }
            }
            assert forall|a: Seq<char>| #[trigger] self.stashes_of(a) == if a == caller@ {
                listed(members, a).insert(id)
            } else {
                listed(members, a)
            } by {
                assert forall|x: u64| #[trigger] self.stashes_of(a).contains(x) == (if a == caller@ {
                    listed(members, a).insert(id)
                } else {
                    listed(members, a)
                }).contains(x) by {
                    if listed(members, a).contains(x) {
                        let k = choose|k: int|
                            0 <= k < members.len() && members[k].account@ == a && members[k].stash_id
                                == x;
                        assert(m[k] == members[k]);
                    }
                    if self.stashes_of(a).contains(x) {
                        let k = choose|k: int|
                            0 <= k < m.len() && m[k].account@ == a && m[k].stash_id == x;
                        if k < members.len() {
                            assert(m[k] == members[k]);
                        }
                    }
                    if a == caller@ && x == id {
                        assert(m[members.len() as int].account@ == a);
                    }
                }
                assert(self.stashes_of(a) =~= if a == caller@ {
                    listed(members, a).insert(id)
                } else {
                    listed(members, a)
                });
            }
        }
        Ok(id)
    }

    /// The ids of the stashes `account` created, each once.
    pub fn get_stashes_for_account(&self, account: &AccountName) -> (r: Vec<u64>)
        ensures
            r@.no_duplicates(),
            forall|id: u64| r@.contains(id) <==> self.stashes_of(account@).contains(id),
    {
        let mut r: Vec<u64> = Vec::new();
        let mut i: usize = 0;
        while i < self.accounts.len()
            invariant
                i <= self.accounts@.len(),
                r@.no_duplicates(),
                forall|id: u64|
                    r@.contains(id) <==> exists|k: int|
                        0 <= k < i && (#[trigger] self.accounts@[k]).account@ == account@
                            && self.accounts@[k].stash_id == id,
            decreases self.accounts@.len() - i,
        {
            let ghost r0 = r@;
            if self.accounts[i].account.equals(account) {
                let id = self.accounts[i].stash_id;
                let mut seen = false;
                let mut j: usize = 0;
                while j < r.len()
                    invariant
                        j <= r@.len(),
                        seen == (exists|k: int| 0 <= k < j && r@[k] == id),
                    decreases r@.len() - j,
                {
                    if r[j] == id {
                        seen = true;
                    }
                    j = j + 1;
                }
                if !seen {
                    let ghost pre = r@;
                    r.push(id);
                    proof {
                        assert forall|p: int, q: int| 0 <= p < q < r@.len() implies r@[p] != r@[q] by {
                            if q < pre.len() {
                                assert(pre[p] != pre[q]);
                            } else {
                                assert(r@[p] == pre[p]);
                            }
                        }
                        assert forall|x: u64| r@.contains(x) == (pre.contains(x) || x == id) by {
                            if r@.contains(x) && x != id {
                                let k = choose|k: int| 0 <= k < r@.len() && r@[k] == x;
                                assert(pre[k] == x);
                            }
                            if pre.contains(x) {
                                let k = choose|k: int| 0 <= k < pre.len() && pre[k] == x;
                                assert(r@[k] == x);
                            }
                            if x == id {
                                assert(r@[pre.len() as int] == x);
                            }
                        }
                    }
                } else {
                    proof {
                        let k = choose|k: int| 0 <= k < j && r@[k] == id;
                        assert(r@.contains(id));
                    }
                }
                assert(r@.contains(id));
                assert(id == self.accounts@[i as int].stash_id);
            }
            proof {
                let e = self.accounts@[i as int];
                let matched = e.account@ == account@;
                assert(matched ==> r@.contains(e.stash_id));
                assert forall|x: u64| r@.contains(x) == (r0.contains(x) || (matched && x == e.stash_id))
                    by {}
                assert forall|x: u64| r@.contains(x) <==> exists|k: int|
                    0 <= k < i + 1 && (#[trigger] self.accounts@[k]).account@ == account@
                        && self.accounts@[k].stash_id == x by {
                    if r0.contains(x) {
                        let k = choose|k: int|
                            0 <= k < i && (#[trigger] self.accounts@[k]).account@ == account@
                                && self.accounts@[k].stash_id == x;
                        assert(0 <= k < i + 1);
                    }
                    if matched && x == e.stash_id {
                        assert(self.accounts@[i as int].account@ == account@);
                    }
                    if exists|k: int|
                        0 <= k < i + 1 && (#[trigger] self.accounts@[k]).account@ == account@
                            && self.accounts@[k].stash_id == x {
                        let k = choose|k: int|
                            0 <= k < i + 1 && (#[trigger] self.accounts@[k]).account@ == account@
                                && self.accounts@[k].stash_id == x;
                        if k < i {
                            assert(r0.contains(x));
                        }
                    }
                }
            }
            i = i + 1;
        }
        proof {
            assert forall|id: u64| r@.contains(id) <==> self.stashes_of(account@).contains(id) by {}
        }
        r
    }
}

proof fn lemma_listed_push(s: Seq<Membership>, e: Membership, a: Seq<char>)
    ensures
        listed(s.push(e), a) == if e.account@ == a {
            listed(s, a).insert(e.stash_id)
        } else {
            listed(s, a)
        },
{
    let u = s.push(e);
    let expected = if e.account@ == a {
        listed(s, a).insert(e.stash_id)
    } else {
        listed(s, a)
    };
    assert forall|x: u64| #[trigger] listed(u, a).contains(x) == expected.contains(x) by {
        if listed(s, a).contains(x) {
            let k = choose|k: int| 0 <= k < s.len() && s[k].account@ == a && s[k].stash_id == x;
            assert(u[k] == s[k]);
        }
        if listed(u, a).contains(x) {
            let k = choose|k: int| 0 <= k < u.len() && u[k].account@ == a && u[k].stash_id == x;
            if k < s.len() {
                assert(u[k] == s[k]);
            }
        }
        if e.account@ == a && x == e.stash_id {
            assert(u[s.len() as int] == e);
        }
    }
    assert(listed(u, a) =~= expected);
}

/// `post` is `pre` with at most stash `id` changed; the index and the allow-list
/// are kept.
pub open spec fn stash_updated(pre: Contract, post: Contract, id: u64) -> bool {
    &&& post.stashes() == if pre.stashes().contains_key(id) {
        pre.stashes().insert(id, post.stashes()[id])
    } else {
        pre.stashes()
    }
    &&& forall|a: Seq<char>| #[trigger] post.stashes_of(a) == pre.stashes_of(a)
    &&& post.allowed() == pre.allowed()
    &&& post.next_stash_id() == pre.next_stash_id()
}

impl Contract {
    proof fn lemma_stash_replaced(pre: Contract, post: Contract, i: int)
        requires
            pre.wf(),
            0 <= i < pre.stashes@.len(),
            post.stashes@ == pre.stashes@.update(i, post.stashes@[i]),
            post.stashes@[i].wf(),
            post.stashes@[i].stash_id() == pre.stashes@[i].stash_id(),
            post.accounts@ == pre.accounts@,
            post.next_id == pre.next_id,
            post.allow_list@ == pre.allow_list@,
        ensures
            post.wf(),
            stash_updated(pre, post, pre.stashes@[i].stash_id()),
            post.stashes()[pre.stashes@[i].stash_id()] == post.stashes@[i],
            pre.stashes()[pre.stashes@[i].stash_id()] == pre.stashes@[i],
    {
        let id = pre.stashes@[i].stash_id();
        lemma_stash_map_set(pre.stashes@, i, post.stashes@[i]);
        lemma_stash_map_at(pre.stashes@, i);
        lemma_stash_map_at(post.stashes@, i);
        assert forall|j: int| 0 <= j < post.stashes@.len() implies (#[trigger] post.stashes@[j]).wf()
            && post.stashes@[j].stash_id() < post.next_id by {
            if j != i {
                assert(post.stashes@[j] == pre.stashes@[j]);
            }
        }
        assert forall|j: int| 0 <= j < post.accounts@.len() implies stash_map(
            post.stashes@,
        ).contains_key((#[trigger] post.accounts@[j]).stash_id) by {
            assert(stash_map(pre.stashes@).contains_key(pre.accounts@[j].stash_id));
        }
    }

    /// `caller`, who must be authorized in stash `stash_id`, adds a fee-free vault
    /// for `token_id`, which must be on the allow-list.
    pub fn add_token_to_stash(&mut self, caller: &AccountName, stash_id: u64, token_id: AccountName) -> (r:
        Result<(), StashError>)
        requires
            old(self).wf(),
        ensures
            final(self).wf(),
            stash_updated(*old(self), *final(self), stash_id),
            !old(self).stashes().contains_key(stash_id) ==> r == Err::<(), StashError>(
                StashError::NotFound,
            ),
            old(self).stashes().contains_key(stash_id) ==> add_vault_outcome(
                old(self).stashes()[stash_id],
                final(self).stashes()[stash_id],
                caller@,
                token_id@,
                old(self).allowed(),
                0,
                r,
            ),
    {
        let i = match self.find(stash_id) {
            Some(i) => i,
            None => {
                return Err(StashError::NotFound);
            },
        };
        let r = self.stashes[i].add_vault(caller, token_id, &self.allow_list);
        proof {
            Contract::lemma_stash_replaced(*old(self), *self, i as int);
        }
        r
    }

    /// `caller` deposits `amount` of `token_id` into its pending balance in stash `stash_id`.
    pub fn deposit(&mut self, caller: &AccountName, stash_id: u64, token_id: &AccountName, amount: u128) -> (r:
        Result<u128, StashError>)
        requires
            old(self).wf(),
        ensures
            final(self).wf(),
            stash_updated(*old(self), *final(self), stash_id),
            !old(self).stashes().contains_key(stash_id) ==> r == Err::<u128, StashError>(
                StashError::NotFound,
            ),
            old(self).stashes().contains_key(stash_id) ==> deposit_outcome(
                old(self).stashes()[stash_id],
                final(self).stashes()[stash_id],
                caller@,
                token_id@,
                amount as int,
                r,
            ),
    {
        let i = match self.find(stash_id) {
            Some(i) => i,
            None => {
                return Err(StashError::NotFound);
            },
        };
        let r = self.stashes[i].deposit(caller, token_id, amount);
        proof {
            Contract::lemma_stash_replaced(*old(self), *self, i as int);
        }
        r
    }

    /// `caller` moves `amount` of its pending balance of `token_id` in stash
    /// `stash_id` into the asset's vault. Returns the shares minted.
    pub fn add_liquidity_to_stash(
        &mut self,
        caller: &AccountName,
        stash_id: u64,
        token_id: &AccountName,
        amount: u128,
    ) -> (r: Result<u128, StashError>)
        requires
            old(self).wf(),
        ensures
            final(self).wf(),
            stash_updated(*old(self), *final(self), stash_id),
            !old(self).stashes().contains_key(stash_id) ==> r == Err::<u128, StashError>(
                StashError::NotFound,
            ),
            old(self).stashes().contains_key(stash_id) ==> add_liquidity_outcome(
                old(self).stashes()[stash_id],
                final(self).stashes()[stash_id],
                caller@,
                token_id@,
                amount as int,
                r,
            ),
    {
        let i = match self.find(stash_id) {
            Some(i) => i,
            None => {
                return Err(StashError::NotFound);
            },
        };
        let r = self.stashes[i].add_liquidity(caller, token_id, amount);
        proof {
            Contract::lemma_stash_replaced(*old(self), *self, i as int);
        }
        r
    }

    /// `caller` withdraws `shares` of its shares of `token_id` in stash `stash_id`
    /// into its pending balance. Returns the assets paid out.
    pub fn remove_liquidity_from_stash(
        &mut self,
        caller: &AccountName,
        stash_id: u64,
        token_id: &AccountName,
        shares: u128,
    ) -> (r: Result<u128, StashError>)
        requires
            old(self).wf(),
        ensures
            final(self).wf(),
            stash_updated(*old(self), *final(self), stash_id),
            !old(self).stashes().contains_key(stash_id) ==> r == Err::<u128, StashError>(
                StashError::NotFound,
            ),
            old(self).stashes().contains_key(stash_id) ==> remove_liquidity_outcome(
                old(self).stashes()[stash_id],
                final(self).stashes()[stash_id],
                caller@,
                token_id@,
                shares as int,
                r,
            ),
    {
        let i = match self.find(stash_id) {
            Some(i) => i,
            None => {
                return Err(StashError::NotFound);
            },
        };
        let r = self.stashes[i].remove_liquidity(caller, token_id, shares);
        proof {
            Contract::lemma_stash_replaced(*old(self), *self, i as int);
        }
        r
    }

    /// `caller` takes `amount` out of its pending balance of `token_id` in stash
    /// `stash_id`; on success that amount is owed to `caller`.
    pub fn withdraw(&mut self, caller: &AccountName, stash_id: u64, token_id: &AccountName, amount: u128) -> (r:
        Result<(), StashError>)
        requires
            old(self).wf(),
        ensures
            final(self).wf(),
            stash_updated(*old(self), *final(self), stash_id),
            !old(self).stashes().contains_key(stash_id) ==> r == Err::<(), StashError>(
                StashError::NotFound,
            ),
            old(self).stashes().contains_key(stash_id) ==> withdraw_outcome(
                old(self).stashes()[stash_id],
                final(self).stashes()[stash_id],
                caller@,
                token_id@,
                amount as int,
                r,
            ),
    {
        let i = match self.find(stash_id) {
            Some(i) => i,
            None => {
                return Err(StashError::NotFound);
            },
        };
        let r = self.stashes[i].withdraw(caller, token_id, amount);
        proof {
            Contract::lemma_stash_replaced(*old(self), *self, i as int);
        }
        r
    }

    /// Undoes, in stash `stash_id`, a withdrawal of `amount` of `token_id` by
    /// `holder` whose transfer failed.
    pub fn restore_withdrawal(
        &mut self,
        holder: &AccountName,
        stash_id: u64,
        token_id: &AccountName,
        amount: u128,
    ) -> (r: Result<(), StashError>)
        requires
            old(self).wf(),
        ensures
            final(self).wf(),
            stash_updated(*old(self), *final(self), stash_id),
            !old(self).stashes().contains_key(stash_id) ==> r == Err::<(), StashError>(
                StashError::NotFound,
            ),
            old(self).stashes().contains_key(stash_id) ==> restore_outcome(
                old(self).stashes()[stash_id],
                final(self).stashes()[stash_id],
                holder@,
                token_id@,
                amount as int,
                r,
            ),
    {
        let i = match self.find(stash_id) {
            Some(i) => i,
            None => {
                return Err(StashError::NotFound);
            },
        };
        let r = self.stashes[i].restore_withdrawal(holder, token_id, amount);
        proof {
            Contract::lemma_stash_replaced(*old(self), *self, i as int);
        }
        r
    }

    /// `caller`, who must be authorized in stash `stash_id`, authorizes `account_id` there.
    pub fn authorize_contributor(&mut self, caller: &AccountName, stash_id: u64, account_id: AccountName) -> (r:
        Result<(), StashError>)
        requires
            old(self).wf(),
        ensures
            final(self).wf(),
            stash_updated(*old(self), *final(self), stash_id),
            !old(self).stashes().contains_key(stash_id) ==> r == Err::<(), StashError>(
                StashError::NotFound,
            ),
            old(self).stashes().contains_key(stash_id) ==> authorize_outcome(
                old(self).stashes()[stash_id],
                final(self).stashes()[stash_id],
                caller@,
                account_id@,
                r,
            ),
    {
        let i = match self.find(stash_id) {
            Some(i) => i,
            None => {
                return Err(StashError::NotFound);
            },
        };
        let r = self.stashes[i].authorize_contributor(caller, account_id);
        proof {
            Contract::lemma_stash_replaced(*old(self), *self, i as int);
        }
        r
    }

    /// `caller`, who must be authorized in stash `stash_id`, revokes the
    /// authorization of `account_id` there.
    pub fn revoke_contributor(&mut self, caller: &AccountName, stash_id: u64, account_id: &AccountName) -> (r:
        Result<(), StashError>)
        requires
            old(self).wf(),
        ensures
            final(self).wf(),
            stash_updated(*old(self), *final(self), stash_id),
            !old(self).stashes().contains_key(stash_id) ==> r == Err::<(), StashError>(
                StashError::NotFound,
            ),
            old(self).stashes().contains_key(stash_id) ==> revoke_outcome(
                old(self).stashes()[stash_id],
                final(self).stashes()[stash_id],
                caller@,
                account_id@,
                r,
            ),
    {
        let i = match self.find(stash_id) {
            Some(i) => i,
            None => {
                return Err(StashError::NotFound);
            },
        };
        let r = self.stashes[i].revoke_contributor(caller, account_id);
        proof {
            Contract::lemma_stash_replaced(*old(self), *self, i as int);
        }
        r
    }

    /// `caller`, who must be authorized in stash `stash_id`, removes the stash; no
    /// account stays listed with it.
    pub fn remove_stash(&mut self, caller: &AccountName, stash_id: u64) -> (r: Result<(), StashError>)
        requires
            old(self).wf(),
        ensures
            final(self).wf(),
            r is Ok <==> old(self).stashes().contains_key(stash_id) && old(self).stashes()[stash_id].authorized().contains(caller@),
            !old(self).stashes().contains_key(stash_id) ==> r == Err::<(), StashError>(
                StashError::NotFound,
            ),
            old(self).stashes().contains_key(stash_id) && !old(self).stashes()[stash_id].authorized().contains(caller@)
                ==> r == Err::<(), StashError>(StashError::Unauthorized),
            r is Err ==> *final(self) == *old(self),
            r is Ok ==> {
                &&& final(self).stashes() == old(self).stashes().remove(stash_id)
                &&& forall|a: Seq<char>| #[trigger] final(self).stashes_of(a) == old(self).stashes_of(a).remove(stash_id)
                &&& final(self).allowed() == old(self).allowed()
                &&& final(self).next_stash_id() == old(self).next_stash_id()
            },
    {
        let i = match self.find(stash_id) {
            Some(i) => i,
            None => {
                return Err(StashError::NotFound);
            },
        };
        if !self.stashes[i].is_authorized(caller) {
            return Err(StashError::Unauthorized);
        }
        let ghost before = self.stashes@;
        let ghost members = self.accounts@;
        proof {
            lemma_stash_map_remove(before, i as int);
        }
        self.stashes.remove(i);
        let mut kept: Vec<Membership> = Vec::new();
        let mut j: usize = 0;
        while j < self.accounts.len()
            invariant
                self.accounts@ == members,
                j <= members.len(),
                forall|k: int| 0 <= k < members.len() ==> stash_map(before).contains_key(
                    (#[trigger] members[k]).stash_id,
                ),
                forall|k: int|
                    0 <= k < kept@.len() ==> (#[trigger] kept@[k]).stash_id != stash_id
                        && stash_map(before).contains_key(kept@[k].stash_id),
                forall|a: Seq<char>| #[trigger]
                    listed(kept@, a) == listed(members.subrange(0, j as int), a).remove(stash_id),
            decreases members.len() - j,
        {
            let ghost sub = members.subrange(0, j as int);
            let ghost pre_kept = kept@;
            assert(members.subrange(0, j + 1) == sub.push(members[j as int]));
            if self.accounts[j].stash_id != stash_id {
                let m = Membership {
                    account: self.accounts[j].account.clone(),
                    stash_id: self.accounts[j].stash_id,
                };
                kept.push(m);
                proof {
                    assert(m == members[j as int]);
                    assert forall|a: Seq<char>| #[trigger]
                        listed(kept@, a) == listed(members.subrange(0, j + 1), a).remove(stash_id) by {
                        lemma_listed_push(pre_kept, m, a);
                        lemma_listed_push(sub, m, a);
                        assert(listed(kept@, a) =~= listed(members.subrange(0, j + 1), a).remove(stash_id));
                    }
                }
            } else {
                proof {
                    assert forall|a: Seq<char>| #[trigger]
                        listed(kept@, a) == listed(members.subrange(0, j + 1), a).remove(stash_id) by {
                        lemma_listed_push(sub, members[j as int], a);
                        assert(listed(kept@, a) =~= listed(members.subrange(0, j + 1), a).remove(stash_id));
                    }
                }
            }
            j = j + 1;
        }
        proof {
            assert(members.subrange(0, members.len() as int) == members);
        }
        self.accounts = kept;
        proof {
            assert forall|k: int| 0 <= k < self.stashes@.len() implies (#[trigger] self.stashes@[k]).wf()
                && self.stashes@[k].stash_id() < self.next_id by {
                if k < i {
                    assert(self.stashes@[k] == before[k]);
                } else {
                    assert(self.stashes@[k] == before[k + 1]);
                }
            }
        }
        Ok(())
    }
}

} // verus!
