//! The authorization registry of a stash: who may change it. Absence means no.

use vstd::prelude::*;
use crate::account::AccountName;
use crate::error::StashError;

verus! {

pub struct AuthorizationRegistry {
    members: Vec<AccountName>,
}

impl View for AuthorizationRegistry {
    type V = Set<Seq<char>>;

    /// The authorized identities.
    closed spec fn view(&self) -> Set<Seq<char>> {
        Set::new(
            |a: Seq<char>| exists|i: int| 0 <= i < self.members@.len() && self.members@[i]@ == a,
        )
    }
}

impl AuthorizationRegistry {
    pub closed spec fn wf(&self) -> bool {
        forall|i: int, j: int|
            0 <= i < j < self.members@.len() ==> (#[trigger] self.members@[i])@
                != (#[trigger] self.members@[j])@
    }

    /// A registry in which only `creator` is authorized.
    pub fn new(creator: AccountName) -> (r: AuthorizationRegistry)
        ensures
            r.wf(),
            r@ == set![creator@],
    {
        let ghost c = creator@;
        let r = AuthorizationRegistry { members: vec![creator] };
        proof {
            assert forall|a: Seq<char>| r@.contains(a) <==> set![c].contains(a) by {
                if a == c {
                    assert(r.members@[0]@ == c);
                }
            }
        }
        assert(r@ =~= set![c]);
        r
    }

    fn find(&self, who: &AccountName) -> (r: Option<usize>)
        ensures
            match r {
                Some(i) => i < self.members@.len() && self.members@[i as int]@ == who@,
                None => forall|i: int|
                    0 <= i < self.members@.len() ==> (#[trigger] self.members@[i])@ != who@,
            },
    {
        let mut i: usize = 0;
        while i < self.members.len()
            invariant
                i <= self.members@.len(),
                forall|j: int| 0 <= j < i ==> (#[trigger] self.members@[j])@ != who@,
            decreases self.members@.len() - i,
        {
            if self.members[i].equals(who) {
                return Some(i);
            }
            i = i + 1;
        }
        None
    }

    pub fn is_authorized(&self, who: &AccountName) -> (r: bool)
        ensures
            r == self@.contains(who@),
    {
        match self.find(who) {
            Some(i) => {
                assert(self.members@[i as int]@ == who@);
                true
            },
            None => false,
        }
    }

    /// Refuses with `Unauthorized` unless `caller` is authorized.
    pub fn assert_authorized(&self, caller: &AccountName) -> (r: Result<(), StashError>)
        ensures
            r is Ok <==> self@.contains(caller@),
            r is Err ==> r == Err::<(), StashError>(StashError::Unauthorized),
    {
        if self.is_authorized(caller) {
            Ok(())
        } else {
            Err(StashError::Unauthorized)
        }
    }

    /// Authorizes `who`; authorizing twice changes nothing.
    pub fn insert(&mut self, who: AccountName)
        requires
            old(self).wf(),
        ensures
            final(self).wf(),
            final(self)@ == old(self)@.insert(who@),
    {
        if self.find(&who).is_some() {
            assert(self@ =~= old(self)@.insert(who@));
            return;
        }
        let ghost pre = self.members@;
        let ghost a = who@;
        self.members.push(who);
        proof {
            assert forall|x: Seq<char>| old(self)@.insert(a).contains(x) implies self@.contains(x) by {
                if x == a {
                    assert(self.members@[pre.len() as int]@ == a);
                } else {
                    let i = choose|i: int| 0 <= i < pre.len() && pre[i]@ == x;
                    assert(self.members@[i] == pre[i]);
                }
            }
            assert forall|x: Seq<char>| self@.contains(x) implies old(self)@.insert(a).contains(x) by {
                if x != a {
                    let i = choose|i: int| 0 <= i < self.members@.len() && self.members@[i]@ == x;
                    assert(pre[i] == self.members@[i]);
                }
            }
            assert forall|i: int, j: int|
                0 <= i < j < self.members@.len() implies (#[trigger] self.members@[i])@
                != (#[trigger] self.members@[j])@ by {
                if j < pre.len() {
                    assert(pre[i]@ != pre[j]@);
                } else {
                    assert(self.members@[i] == pre[i]);
                }
            }
        }
        assert(self@ =~= old(self)@.insert(a));
    }

    /// Takes the authorization of `who` away; nothing changes if it had none.
    pub fn remove(&mut self, who: &AccountName)
        requires
            old(self).wf(),
        ensures
            final(self).wf(),
            final(self)@ == old(self)@.remove(who@),
    {
        match self.find(who) {
            None => {
                assert(self@ =~= old(self)@.remove(who@));
            },
            Some(k) => {
                let ghost pre = self.members@;
                let ghost a = who@;
                self.members.remove(k);
                proof {
                    let post = self.members@;
                    assert(post == pre.remove(k as int));
                    assert forall|x: Seq<char>| old(self)@.remove(a).contains(x) implies self@.contains(
                        x,
                    ) by {
                        let i = choose|i: int| 0 <= i < pre.len() && pre[i]@ == x;
                        if i < k {
                            assert(post[i] == pre[i]);
                        } else {
                            assert(i != k);
                            assert(post[i - 1] == pre[i]);
                        }
                    }
                    assert forall|x: Seq<char>| self@.contains(x) implies old(self)@.remove(
                        a,
                    ).contains(x) by {
                        let i = choose|i: int| 0 <= i < post.len() && post[i]@ == x;
                        if i < k {
                            assert(post[i] == pre[i]);
                            assert(pre[i]@ != pre[k as int]@);
                        } else {
                            assert(post[i] == pre[i + 1]);
                            assert(pre[k as int]@ != pre[i + 1]@);
                        }
                    }
                    assert forall|i: int, j: int|
                        0 <= i < j < post.len() implies (#[trigger] post[i])@
                        != (#[trigger] post[j])@ by {
                        let pi = if i < k { i } else { i + 1 };
                        let pj = if j < k { j } else { j + 1 };
                        assert(post[i] == pre[pi]);
                        assert(post[j] == pre[pj]);
                        assert(pre[pi]@ != pre[pj]@);
                    }
                }
                assert(self@ =~= old(self)@.remove(a));
            },
        }
    }

    /// `actor`, who must be authorized, authorizes `target`.
    pub fn authorize(&mut self, actor: &AccountName, target: AccountName) -> (r: Result<
        (),
        StashError,
    >)
        requires
            old(self).wf(),
        ensures
            final(self).wf(),
            r is Ok <==> old(self)@.contains(actor@),
            r is Err ==> r == Err::<(), StashError>(StashError::Unauthorized) && *final(self)
                == *old(self),
            r is Ok ==> final(self)@ == old(self)@.insert(target@),
    {
        self.assert_authorized(actor)?;
        self.insert(target);
        Ok(())
    }

    /// `actor`, who must be authorized, revokes the authorization of `target`.
    pub fn revoke(&mut self, actor: &AccountName, target: &AccountName) -> (r: Result<
        (),
        StashError,
    >)
        requires
            old(self).wf(),
        ensures
            final(self).wf(),
            r is Ok <==> old(self)@.contains(actor@),
            r is Err ==> r == Err::<(), StashError>(StashError::Unauthorized) && *final(self)
                == *old(self),
            r is Ok ==> final(self)@ == old(self)@.remove(target@),
    {
        self.assert_authorized(actor)?;
        self.remove(target);
        Ok(())
    }
}

} // verus!
