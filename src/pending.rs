//! Pending balances: assets a contributor deposited into a stash that are not
//! (or no longer) converted into vault shares. Only positive balances have an entry.

use vstd::prelude::*;
use crate::account::AccountName;

verus! {

pub struct PendingEntry {
    pub holder: AccountName,
    pub asset: AccountName,
    pub amount: u128,
}

/// Whether entry `e` is the one of holder `h` and asset `a`.
pub open spec fn is_key(e: PendingEntry, h: Seq<char>, a: Seq<char>) -> bool {
    e.holder@ == h && e.asset@ == a
}

/// The pending balance that the entries `s` record for holder `h` and asset `a`.
pub open spec fn pending_of(s: Seq<PendingEntry>, h: Seq<char>, a: Seq<char>) -> nat
    decreases s.len(),
{
    if s.len() == 0 {
        0
    } else {
        pending_of(s.drop_last(), h, a) + if is_key(s.last(), h, a) {
            s.last().amount as nat
        } else {
            0
        }
    }
}

/// No two entries share holder and asset, and every entry holds a positive amount.
pub open spec fn entries_wf(s: Seq<PendingEntry>) -> bool {
    &&& forall|i: int, j: int|
        0 <= i < j < s.len() ==> !is_key(#[trigger] s[i], (#[trigger] s[j]).holder@, s[j].asset@)
    &&& forall|i: int| 0 <= i < s.len() ==> (#[trigger] s[i]).amount > 0
}

proof fn lemma_pending_absent(s: Seq<PendingEntry>, h: Seq<char>, a: Seq<char>)
    requires
        forall|i: int| 0 <= i < s.len() ==> !is_key(#[trigger] s[i], h, a),
    ensures
        pending_of(s, h, a) == 0,
    decreases s.len(),
{
    if s.len() > 0 {
        let t = s.drop_last();
        assert forall|i: int| 0 <= i < t.len() implies !is_key(#[trigger] t[i], h, a) by {
            assert(t[i] == s[i]);
        }
        lemma_pending_absent(t, h, a);
    }
}

proof fn lemma_pending_at(s: Seq<PendingEntry>, i: int)
    requires
        entries_wf(s),
        0 <= i < s.len(),
    ensures
        pending_of(s, s[i].holder@, s[i].asset@) == s[i].amount,
    decreases s.len(),
{
    let t = s.drop_last();
    if i == s.len() - 1 {
        assert forall|j: int| 0 <= j < t.len() implies !is_key(
            #[trigger] t[j],
            s[i].holder@,
            s[i].asset@,
        ) by {
            assert(t[j] == s[j]);
        }
        lemma_pending_absent(t, s[i].holder@, s[i].asset@);
    } else {
        assert(entries_wf(t)) by {
            assert forall|p: int, q: int| 0 <= p < q < t.len() implies !is_key(
                #[trigger] t[p],
                (#[trigger] t[q]).holder@,
                t[q].asset@,
            ) by {
                assert(t[p] == s[p] && t[q] == s[q]);
            }
            assert forall|p: int| 0 <= p < t.len() implies (#[trigger] t[p]).amount > 0 by {
                assert(t[p] == s[p]);
            }
        }
        assert(t[i] == s[i]);
        lemma_pending_at(t, i);
    }
}

/// The contribution of entry `e` to the balance of `h` and `a`.
spec fn share(e: PendingEntry, h: Seq<char>, a: Seq<char>) -> int {
    if is_key(e, h, a) {
        e.amount as int
    } else {
        0
    }
}

proof fn lemma_pending_update(s: Seq<PendingEntry>, i: int, e: PendingEntry, h: Seq<char>, a: Seq<char>)
    requires
        0 <= i < s.len(),
    ensures
        pending_of(s.update(i, e), h, a) == pending_of(s, h, a) - share(s[i], h, a) + share(e, h, a),
    decreases s.len(),
{
    let u = s.update(i, e);
    if i == s.len() - 1 {
        assert(u.drop_last() =~= s.drop_last());
    } else {
        assert(u.drop_last() =~= s.drop_last().update(i, e));
        lemma_pending_update(s.drop_last(), i, e, h, a);
    }
}

proof fn lemma_pending_push(s: Seq<PendingEntry>, e: PendingEntry, h: Seq<char>, a: Seq<char>)
    ensures
        pending_of(s.push(e), h, a) == pending_of(s, h, a) + share(e, h, a),
{
    assert(s.push(e).drop_last() =~= s);
}

proof fn lemma_pending_swap_remove(s: Seq<PendingEntry>, i: int, h: Seq<char>, a: Seq<char>)
    requires
        0 <= i < s.len(),
    ensures
        pending_of(s.update(i, s.last()).drop_last(), h, a) == pending_of(s, h, a) - share(s[i], h, a),
{
    let u = s.update(i, s.last());
    lemma_pending_update(s, i, s.last(), h, a);
    assert(u.last() == s.last());
}

pub struct PendingDeposits {
    entries: Vec<PendingEntry>,
}

impl PendingDeposits {
    pub closed spec fn wf(&self) -> bool {
        entries_wf(self.entries@)
    }

    /// The pending balance of holder `h` in asset `a`.
    pub closed spec fn amount(&self, h: Seq<char>, a: Seq<char>) -> nat {
        pending_of(self.entries@, h, a)
    }

    /// Whether `h` has a positive pending balance in some asset.
    pub open spec fn holds_any(&self, h: Seq<char>) -> bool {
        exists|a: Seq<char>| self.amount(h, a) > 0
    }

    pub fn new() -> (r: PendingDeposits)
        ensures
            r.wf(),
            forall|h: Seq<char>, a: Seq<char>| r.amount(h, a) == 0,
    {
        PendingDeposits { entries: Vec::new() }
    }

    fn find(&self, h: &AccountName, a: &AccountName) -> (r: Option<usize>)
        ensures
            match r {
                Some(i) => i < self.entries@.len() && is_key(self.entries@[i as int], h@, a@),
                None => forall|i: int|
                    0 <= i < self.entries@.len() ==> !is_key(#[trigger] self.entries@[i], h@, a@),
            },
    {
        let mut i: usize = 0;
        while i < self.entries.len()
            invariant
                i <= self.entries@.len(),
                forall|j: int| 0 <= j < i ==> !is_key(#[trigger] self.entries@[j], h@, a@),
            decreases self.entries@.len() - i,
        {
            if self.entries[i].holder.equals(h) && self.entries[i].asset.equals(a) {
                return Some(i);
            }
            i = i + 1;
        }
        None
    }

    pub fn amount_of(&self, h: &AccountName, a: &AccountName) -> (r: u128)
        requires
            self.wf(),
        ensures
            r == self.amount(h@, a@),
    {
        match self.find(h, a) {
            Some(i) => {
                proof {
                    lemma_pending_at(self.entries@, i as int);
                }
                self.entries[i].amount
            },
            None => {
                proof {
                    lemma_pending_absent(self.entries@, h@, a@);
                }
                0
            },
        }
    }

    /// Whether `h` has a positive pending balance in some asset.
    pub fn holds_any_of(&self, h: &AccountName) -> (r: bool)
        requires
            self.wf(),
        ensures
            r == self.holds_any(h@),
    {
        let mut i: usize = 0;
        while i < self.entries.len()
            invariant
                self.wf(),
                i <= self.entries@.len(),
                forall|j: int| 0 <= j < i ==> (#[trigger] self.entries@[j]).holder@ != h@,
            decreases self.entries@.len() - i,
        {
            if self.entries[i].holder.equals(h) {
                proof {
                    lemma_pending_at(self.entries@, i as int);
                    assert(self.amount(h@, self.entries@[i as int].asset@) > 0);
                }
                return true;
            }
            i = i + 1;
        }
        proof {
            assert forall|a: Seq<char>| self.amount(h@, a) == 0 by {
                assert forall|j: int| 0 <= j < self.entries@.len() implies !is_key(
                    #[trigger] self.entries@[j],
                    h@,
                    a,
                ) by {}
                lemma_pending_absent(self.entries@, h@, a);
            }
        }
        false
    }

    /// Adds `x` to the pending balance of `h` in `a`.
    pub fn credit(&mut self, h: &AccountName, a: &AccountName, x: u128)
        requires
            old(self).wf(),
            old(self).amount(h@, a@) + x <= u128::MAX,
        ensures
            final(self).wf(),
            final(self).amount(h@, a@) == old(self).amount(h@, a@) + x,
            forall|h2: Seq<char>, a2: Seq<char>|
                !(h2 == h@ && a2 == a@) ==> final(self).amount(h2, a2) == old(self).amount(h2, a2),
    {
        if x == 0 {
            return;
        }
        let ghost s = self.entries@;
        match self.find(h, a) {
            Some(i) => {
                proof {
                    lemma_pending_at(s, i as int);
                }
                let e = PendingEntry {
                    holder: h.clone(),
                    asset: a.clone(),
                    amount: self.entries[i].amount + x,
                };
                self.entries.set(i, e);
                proof {
                    assert(self.entries@ == s.update(i as int, e));
                    assert forall|h2: Seq<char>, a2: Seq<char>| true implies pending_of(
                        s.update(i as int, e),
                        h2,
                        a2,
                    ) == pending_of(s, h2, a2) - share(s[i as int], h2, a2) + share(e, h2, a2) by {
                        lemma_pending_update(s, i as int, e, h2, a2);
                    }
                    assert forall|p: int, q: int|
                        0 <= p < q < self.entries@.len() implies !is_key(
                        #[trigger] self.entries@[p],
                        (#[trigger] self.entries@[q]).holder@,
                        self.entries@[q].asset@,
                    ) by {
                        assert(!is_key(s[p], s[q].holder@, s[q].asset@));
                    }
                    assert forall|p: int| 0 <= p < self.entries@.len() implies (#[trigger] self.entries@[p]).amount > 0 by {
                        assert(s[p].amount > 0);
                    }
                }
            },
            None => {
                proof {
                    lemma_pending_absent(s, h@, a@);
                }
                let e = PendingEntry { holder: h.clone(), asset: a.clone(), amount: x };
                self.entries.push(e);
                proof {
                    assert(self.entries@ == s.push(e));
                    assert forall|h2: Seq<char>, a2: Seq<char>| true implies pending_of(
                        s.push(e),
                        h2,
                        a2,
                    ) == pending_of(s, h2, a2) + share(e, h2, a2) by {
                        lemma_pending_push(s, e, h2, a2);
                    }
                    assert forall|p: int, q: int|
                        0 <= p < q < self.entries@.len() implies !is_key(
                        #[trigger] self.entries@[p],
                        (#[trigger] self.entries@[q]).holder@,
                        self.entries@[q].asset@,
                    ) by {
                        if q < s.len() {
                            assert(!is_key(s[p], s[q].holder@, s[q].asset@));
                        } else {
                            assert(self.entries@[p] == s[p]);
                        }
                    }
                    assert forall|p: int| 0 <= p < self.entries@.len() implies (#[trigger] self.entries@[p]).amount > 0 by {
                        if p < s.len() {
                            assert(s[p].amount > 0);
                        }
                    }
                }
            },
        }
    }

    /// Takes `x` off the pending balance of `h` in `a`; a balance that drops to
    /// zero loses its entry.
    pub fn debit(&mut self, h: &AccountName, a: &AccountName, x: u128)
        requires
            old(self).wf(),
            x <= old(self).amount(h@, a@),
        ensures
            final(self).wf(),
            final(self).amount(h@, a@) == old(self).amount(h@, a@) - x,
            forall|h2: Seq<char>, a2: Seq<char>|
                !(h2 == h@ && a2 == a@) ==> final(self).amount(h2, a2) == old(self).amount(h2, a2),
    {
        let ghost s = self.entries@;
        match self.find(h, a) {
            None => {
                proof {
                    lemma_pending_absent(s, h@, a@);
                }
            },
            Some(i) => {
                proof {
                    lemma_pending_at(s, i as int);
                }
                let left = self.entries[i].amount - x;
                if left > 0 {
                    let e = PendingEntry { holder: h.clone(), asset: a.clone(), amount: left };
                    self.entries.set(i, e);
                    proof {
                        assert(self.entries@ == s.update(i as int, e));
                        assert forall|h2: Seq<char>, a2: Seq<char>| true implies pending_of(
                            s.update(i as int, e),
                            h2,
                            a2,
                        ) == pending_of(s, h2, a2) - share(s[i as int], h2, a2) + share(e, h2, a2)
                            by {
                            lemma_pending_update(s, i as int, e, h2, a2);
                        }
                        assert forall|p: int, q: int|
                            0 <= p < q < self.entries@.len() implies !is_key(
                            #[trigger] self.entries@[p],
                            (#[trigger] self.entries@[q]).holder@,
                            self.entries@[q].asset@,
                        ) by {
                            assert(!is_key(s[p], s[q].holder@, s[q].asset@));
                        }
                        assert forall|p: int| 0 <= p < self.entries@.len() implies (#[trigger] self.entries@[p]).amount > 0 by {
                            assert(s[p].amount > 0);
                        }
                    }
                } else {
                    self.entries.swap_remove(i);
                    proof {
                        let n = s.len();
                        assert(self.entries@ == s.update(i as int, s.last()).drop_last());
                        assert forall|h2: Seq<char>, a2: Seq<char>| true implies pending_of(
                            s.update(i as int, s.last()).drop_last(),
                            h2,
                            a2,
                        ) == pending_of(s, h2, a2) - share(s[i as int], h2, a2) by {
                            lemma_pending_swap_remove(s, i as int, h2, a2);
                        }
                        let post = self.entries@;
                        assert forall|p: int, q: int|
                            0 <= p < q < post.len() implies !is_key(
                            #[trigger] post[p],
                            (#[trigger] post[q]).holder@,
                            post[q].asset@,
                        ) by {
                            let pp = if p == i { n - 1 } else { p };
                            let qq = if q == i { n - 1 } else { q };
                            assert(post[p] == s[pp]);
                            assert(post[q] == s[qq]);
                            if pp < qq {
                                assert(!is_key(s[pp], s[qq].holder@, s[qq].asset@));
                            } else {
                                assert(!is_key(s[qq], s[pp].holder@, s[pp].asset@));
                            }
                        }
                        assert forall|p: int| 0 <= p < post.len() implies (#[trigger] post[p]).amount > 0 by {
                            let pp = if p == i { n - 1 } else { p };
                            assert(post[p] == s[pp]);
                        }
                    }
                }
            },
        }
    }
}

} // verus!
