//! A book of share balances: one entry per holder.

use vstd::prelude::*;
use crate::account::AccountName;

verus! {

pub struct ShareEntry {
    pub holder: AccountName,
    pub amount: u128,
}

/// The balance that the entries `s` record for holder `h` (0 when `h` holds none).
pub open spec fn amount_of(s: Seq<ShareEntry>, h: Seq<char>) -> nat
    decreases s.len(),
{
    if s.len() == 0 {
        0
    } else {
        amount_of(s.drop_last(), h) + if s.last().holder@ == h {
            s.last().amount as nat
        } else {
            0
        }
    }
}

/// The sum of all balances recorded in `s`.
pub open spec fn sum_of(s: Seq<ShareEntry>) -> nat
    decreases s.len(),
{
    if s.len() == 0 {
        0
    } else {
        sum_of(s.drop_last()) + s.last().amount as nat
    }
}

/// No holder has two entries.
pub open spec fn holders_unique(s: Seq<ShareEntry>) -> bool {
    forall|i: int, j: int|
        0 <= i < j < s.len() ==> (#[trigger] s[i]).holder@ != (#[trigger] s[j]).holder@
}

proof fn lemma_amount_absent(s: Seq<ShareEntry>, h: Seq<char>)
    requires
        forall|i: int| 0 <= i < s.len() ==> (#[trigger] s[i]).holder@ != h,
    ensures
        amount_of(s, h) == 0,
    decreases s.len(),
{
    if s.len() > 0 {
        let t = s.drop_last();
        assert forall|i: int| 0 <= i < t.len() implies (#[trigger] t[i]).holder@ != h by {
            assert(t[i] == s[i]);
        }
        lemma_amount_absent(t, h);
    }
}

proof fn lemma_amount_at(s: Seq<ShareEntry>, i: int)
    requires
        holders_unique(s),
        0 <= i < s.len(),
    ensures
        amount_of(s, s[i].holder@) == s[i].amount,
    decreases s.len(),
{
    let t = s.drop_last();
    if i == s.len() - 1 {
        assert forall|j: int| 0 <= j < t.len() implies (#[trigger] t[j]).holder@ != s[i].holder@ by {
            assert(t[j] == s[j]);
        }
        lemma_amount_absent(t, s[i].holder@);
    } else {
        assert(holders_unique(t)) by {
            assert forall|a: int, b: int| 0 <= a < b < t.len() implies (#[trigger] t[a]).holder@
                != (#[trigger] t[b]).holder@ by {
                assert(t[a] == s[a] && t[b] == s[b]);
            }
        }
        assert(t[i] == s[i]);
        lemma_amount_at(t, i);
    }
}

proof fn lemma_amount_le_sum(s: Seq<ShareEntry>, h: Seq<char>)
    ensures
        amount_of(s, h) <= sum_of(s),
    decreases s.len(),
{
    if s.len() > 0 {
        lemma_amount_le_sum(s.drop_last(), h);
    }
}

proof fn lemma_update(s: Seq<ShareEntry>, i: int, e: ShareEntry, h: Seq<char>)
    requires
        0 <= i < s.len(),
        e.holder@ == s[i].holder@,
    ensures
        amount_of(s.update(i, e), h) == if h == e.holder@ {
            amount_of(s, h) - s[i].amount + e.amount
        } else {
            amount_of(s, h) as int
        },
        sum_of(s.update(i, e)) == sum_of(s) - s[i].amount + e.amount,
    decreases s.len(),
{
    let u = s.update(i, e);
    if i == s.len() - 1 {
        assert(u.drop_last() =~= s.drop_last());
    } else {
        assert(u.drop_last() =~= s.drop_last().update(i, e));
        lemma_update(s.drop_last(), i, e, h);
    }
}

proof fn lemma_push(s: Seq<ShareEntry>, e: ShareEntry, h: Seq<char>)
    ensures
        amount_of(s.push(e), h) == amount_of(s, h) + if e.holder@ == h {
            e.amount as nat
        } else {
            0
        },
        sum_of(s.push(e)) == sum_of(s) + e.amount,
{
    assert(s.push(e).drop_last() =~= s);
}

/// Share balances keyed by holder. Holders never recorded have balance 0.
pub struct ShareBook {
    entries: Vec<ShareEntry>,
}

impl ShareBook {
    pub closed spec fn wf(&self) -> bool {
        holders_unique(self.entries@)
    }

    /// The balance of holder `h`.
    pub closed spec fn balance(&self, h: Seq<char>) -> nat {
        amount_of(self.entries@, h)
    }

    /// The sum of every holder's balance.
    pub closed spec fn total(&self) -> nat {
        sum_of(self.entries@)
    }

    pub fn new() -> (r: ShareBook)
        ensures
            r.wf(),
            r.total() == 0,
            forall|h: Seq<char>| r.balance(h) == 0,
    {
        ShareBook { entries: Vec::new() }
    }

    fn find(&self, h: &AccountName) -> (r: Option<usize>)
        ensures
            match r {
                Some(i) => i < self.entries@.len() && self.entries@[i as int].holder@ == h@,
                None => forall|i: int|
                    0 <= i < self.entries@.len() ==> (#[trigger] self.entries@[i]).holder@ != h@,
            },
    {
        let mut i: usize = 0;
        while i < self.entries.len()
            invariant
                i <= self.entries@.len(),
                forall|j: int| 0 <= j < i ==> (#[trigger] self.entries@[j]).holder@ != h@,
            decreases self.entries@.len() - i,
        {
            if self.entries[i].holder.equals(h) {
                return Some(i);
            }
            i = i + 1;
        }
        None
    }

    /// No holder's balance exceeds the total.
    pub proof fn lemma_balance_le_total(&self, h: Seq<char>)
        ensures
            self.balance(h) <= self.total(),
    {
        lemma_amount_le_sum(self.entries@, h);
    }

    pub fn balance_of(&self, h: &AccountName) -> (r: u128)
        requires
            self.wf(),
        ensures
            r == self.balance(h@),
    {
        match self.find(h) {
            Some(i) => {
                proof {
                    lemma_amount_at(self.entries@, i as int);
                }
                self.entries[i].amount
            },
            None => {
                proof {
                    lemma_amount_absent(self.entries@, h@);
                }
                0
            },
        }
    }

    /// Adds `x` to the balance of `h`.
    pub fn credit(&mut self, h: &AccountName, x: u128)
        requires
            old(self).wf(),
            old(self).total() + x <= u128::MAX,
        ensures
            final(self).wf(),
            final(self).balance(h@) == old(self).balance(h@) + x,
            forall|o: Seq<char>| o != h@ ==> final(self).balance(o) == old(self).balance(o),
            final(self).total() == old(self).total() + x,
    {
        proof {
            lemma_amount_le_sum(self.entries@, h@);
        }
        match self.find(h) {
            Some(i) => {
                let ghost s = self.entries@;
                proof {
                    lemma_amount_at(s, i as int);
                }
                let e = ShareEntry { holder: h.clone(), amount: self.entries[i].amount + x };
                proof {
                    assert forall|o: Seq<char>| true implies amount_of(s.update(i as int, e), o)
                        == if o == e.holder@ {
                        amount_of(s, o) - s[i as int].amount + e.amount
                    } else {
                        amount_of(s, o) as int
                    } by {
                        lemma_update(s, i as int, e, o);
                    }
                    lemma_update(s, i as int, e, h@);
                }
                self.entries.set(i, e);
                proof {
                    assert(self.entries@ == s.update(i as int, e));
                    assert forall|a: int, b: int|
                        0 <= a < b < self.entries@.len() implies (#[trigger] self.entries@[a]).holder@
                        != (#[trigger] self.entries@[b]).holder@ by {
                        assert(s[a].holder@ != s[b].holder@);
                    }
                }
            },
            None => {
                let ghost s = self.entries@;
                let e = ShareEntry { holder: h.clone(), amount: x };
                proof {
                    lemma_amount_absent(s, h@);
                    assert forall|o: Seq<char>| true implies amount_of(s.push(e), o) == amount_of(s, o)
                        + if e.holder@ == o {
                        e.amount as nat
                    } else {
                        0
                    } by {
                        lemma_push(s, e, o);
                    }
                    lemma_push(s, e, h@);
                }
                self.entries.push(e);
                proof {
                    assert(self.entries@ == s.push(e));
                    assert forall|a: int, b: int|
                        0 <= a < b < self.entries@.len() implies (#[trigger] self.entries@[a]).holder@
                        != (#[trigger] self.entries@[b]).holder@ by {
                        if b < s.len() {
                            assert(s[a].holder@ != s[b].holder@);
                        } else {
                            assert(self.entries@[a] == s[a]);
                        }
                    }
                }
            },
        }
    }

    /// Takes `x` off the balance of `h`.
    pub fn debit(&mut self, h: &AccountName, x: u128)
        requires
            old(self).wf(),
            x <= old(self).balance(h@),
        ensures
            final(self).wf(),
            final(self).balance(h@) == old(self).balance(h@) - x,
            forall|o: Seq<char>| o != h@ ==> final(self).balance(o) == old(self).balance(o),
            final(self).total() == old(self).total() - x,
    {
        match self.find(h) {
            Some(i) => {
                let ghost s = self.entries@;
                proof {
                    lemma_amount_at(s, i as int);
                }
                let e = ShareEntry { holder: h.clone(), amount: self.entries[i].amount - x };
                proof {
                    assert forall|o: Seq<char>| true implies amount_of(s.update(i as int, e), o)
                        == if o == e.holder@ {
                        amount_of(s, o) - s[i as int].amount + e.amount
                    } else {
                        amount_of(s, o) as int
                    } by {
                        lemma_update(s, i as int, e, o);
                    }
                    lemma_update(s, i as int, e, h@);
                }
                self.entries.set(i, e);
                proof {
                    assert(self.entries@ == s.update(i as int, e));
                    assert forall|a: int, b: int|
                        0 <= a < b < self.entries@.len() implies (#[trigger] self.entries@[a]).holder@
                        != (#[trigger] self.entries@[b]).holder@ by {
                        assert(s[a].holder@ != s[b].holder@);
                    }
                }
            },
            None => {
                proof {
                    lemma_amount_absent(self.entries@, h@);
                }
            },
        }
    }
}

} // verus!
