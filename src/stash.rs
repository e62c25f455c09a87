//! A stash: a named container whose authorized contributors pool assets. It owns
//! one vault per asset, the contributors' pending balances, and its authorization
//! registry. Every change to it comes from an authorized caller, and a refused
//! call changes nothing.

use vstd::prelude::*;
use crate::account::AccountName;
use crate::authorization::AuthorizationRegistry;
use crate::error::StashError;
use crate::pending::PendingDeposits;
use crate::token::AllowList;
use crate::token_vault::{deposit_effect, deposit_fits, withdraw_effect, withdraw_fits, TokenVault};
use crate::math::BASIS_POINTS;

verus! {

/// No two vaults of `s` hold the same asset.
pub open spec fn assets_unique(s: Seq<TokenVault>) -> bool {
    forall|i: int, j: int|
        0 <= i < j < s.len() ==> (#[trigger] s[i]).asset() != (#[trigger] s[j]).asset()
}

/// The vaults of `s`, keyed by asset.
pub open spec fn vault_map(s: Seq<TokenVault>) -> Map<Seq<char>, TokenVault> {
    Map::new(
        |a: Seq<char>| exists|i: int| 0 <= i < s.len() && s[i].asset() == a,
        |a: Seq<char>| s[choose|i: int| 0 <= i < s.len() && s[i].asset() == a],
    )
}

/// A vault for `asset` that nothing has touched yet, charging `fee_bp` basis points.
pub open spec fn is_fresh_vault(v: TokenVault, asset: Seq<char>, fee_bp: nat) -> bool {
    &&& v.wf()
    &&& v.asset() == asset
    &&& v.fee_bp() == fee_bp
    &&& v.assets() == 0
    &&& v.supply() == 0
    &&& v.fees() == 0
    &&& forall|h: Seq<char>| v.balance(h) == 0
}

proof fn lemma_vault_map_at(s: Seq<TokenVault>, i: int)
    requires
        assets_unique(s),
        0 <= i < s.len(),
    ensures
        vault_map(s).contains_key(s[i].asset()),
        vault_map(s)[s[i].asset()] == s[i],
{
    let a = s[i].asset();
    assert(vault_map(s).contains_key(a));
    let j = choose|j: int| 0 <= j < s.len() && s[j].asset() == a;
    if j != i {
        if j < i {
            assert(s[j].asset() != s[i].asset());
        } else {
            assert(s[i].asset() != s[j].asset());
        }
    }
}

proof fn lemma_vault_map_set(s: Seq<TokenVault>, i: int, v: TokenVault)
    requires
        assets_unique(s),
        0 <= i < s.len(),
        v.asset() == s[i].asset(),
    ensures
        assets_unique(s.update(i, v)),
        vault_map(s.update(i, v)) == vault_map(s).insert(v.asset(), v),
{
    let u = s.update(i, v);
    assert forall|p: int, q: int| 0 <= p < q < u.len() implies (#[trigger] u[p]).asset() != (
    #[trigger] u[q]).asset() by {
        assert(s[p].asset() != s[q].asset());
    }
    lemma_vault_map_at(u, i);
    assert forall|a: Seq<char>| #[trigger]
        vault_map(u).contains_key(a) == vault_map(s).insert(v.asset(), v).contains_key(a) by {
        if vault_map(s).contains_key(a) {
            let j = choose|j: int| 0 <= j < s.len() && s[j].asset() == a;
            assert(u[j].asset() == a);
        }
        if vault_map(u).contains_key(a) {
            let j = choose|j: int| 0 <= j < u.len() && u[j].asset() == a;
            assert(s[j].asset() == a);
        }
    }
    assert forall|a: Seq<char>| vault_map(u).contains_key(a) && a != v.asset() implies #[trigger]
        vault_map(u)[a] == vault_map(s)[a] by {
        let j = choose|j: int| 0 <= j < u.len() && u[j].asset() == a;
        assert(j != i);
        lemma_vault_map_at(u, j);
        lemma_vault_map_at(s, j);
    }
    assert(vault_map(u) =~= vault_map(s).insert(v.asset(), v));
}

proof fn lemma_vault_map_push(s: Seq<TokenVault>, v: TokenVault)
    requires
        assets_unique(s),
        !vault_map(s).contains_key(v.asset()),
    ensures
        assets_unique(s.push(v)),
        vault_map(s.push(v)) == vault_map(s).insert(v.asset(), v),
{
    let u = s.push(v);
    assert forall|p: int, q: int| 0 <= p < q < u.len() implies (#[trigger] u[p]).asset() != (
    #[trigger] u[q]).asset() by {
        if q < s.len() {
            assert(s[p].asset() != s[q].asset());
        } else {
            assert(u[p] == s[p]);
            assert(!(0 <= p < s.len() && s[p].asset() == v.asset()));
        }
    }
    lemma_vault_map_at(u, s.len() as int);
    assert forall|a: Seq<char>| #[trigger]
        vault_map(u).contains_key(a) == vault_map(s).insert(v.asset(), v).contains_key(a) by {
        if vault_map(s).contains_key(a) {
            let j = choose|j: int| 0 <= j < s.len() && s[j].asset() == a;
            assert(u[j] == s[j]);
        }
        if vault_map(u).contains_key(a) && a != v.asset() {
            let j = choose|j: int| 0 <= j < u.len() && u[j].asset() == a;
            assert(j < s.len());
            assert(s[j] == u[j]);
        }
    }
    assert forall|a: Seq<char>| vault_map(u).contains_key(a) && a != v.asset() implies #[trigger]
        vault_map(u)[a] == vault_map(s)[a] by {
        let j = choose|j: int| 0 <= j < u.len() && u[j].asset() == a;
        assert(j < s.len());
        assert(u[j] == s[j]);
        lemma_vault_map_at(u, j);
        lemma_vault_map_at(s, j);
    }
    assert(vault_map(u) =~= vault_map(s).insert(v.asset(), v));
}

pub struct Stash {
    id: u64,
    name: String,
    vaults: Vec<TokenVault>,
    deposited_amounts: PendingDeposits,
    authorized_users: AuthorizationRegistry,
}

impl Stash {
    pub closed spec fn stash_id(&self) -> u64 {
        self.id
    }

    pub closed spec fn stash_name(&self) -> Seq<char> {
        self.name@
    }

    /// The identities allowed to change the stash.
    pub closed spec fn authorized(&self) -> Set<Seq<char>> {
        self.authorized_users@
    }

    /// The vaults of the stash, keyed by asset.
    pub closed spec fn vaults(&self) -> Map<Seq<char>, TokenVault> {
        vault_map(self.vaults@)
    }

    /// The pending balance of holder `h` in asset `a`.
    pub closed spec fn pending(&self, h: Seq<char>, a: Seq<char>) -> nat {
        self.deposited_amounts.amount(h, a)
    }

    /// Whether `h` has a positive pending balance in some asset.
    pub open spec fn holds_pending(&self, h: Seq<char>) -> bool {
        exists|a: Seq<char>| self.pending(h, a) > 0
    }

    pub closed spec fn wf(&self) -> bool {
        &&& self.authorized_users.wf()
        &&& self.deposited_amounts.wf()
        &&& assets_unique(self.vaults@)
        &&& forall|i: int| 0 <= i < self.vaults@.len() ==> (#[trigger] self.vaults@[i]).wf()
    }

    /// Every vault of a well-formed stash is well formed.
    pub proof fn lemma_vaults_wf(&self, a: Seq<char>)
        requires
            self.wf(),
            self.vaults().contains_key(a),
        ensures
            self.vaults()[a].wf(),
            self.vaults()[a].asset() == a,
    {
        let i = choose|i: int| 0 <= i < self.vaults@.len() && self.vaults@[i].asset() == a;
        lemma_vault_map_at(self.vaults@, i);
    }

    /// A stash `id` named `name` with no vaults, in which only `creator` is authorized.
    pub fn new(id: u64, name: String, creator: AccountName) -> (r: Stash)
        ensures
            r.wf(),
            r.stash_id() == id,
            r.stash_name() == name@,
            r.authorized() == set![creator@],
            r.vaults() == Map::<Seq<char>, TokenVault>::empty(),
            forall|h: Seq<char>, a: Seq<char>| r.pending(h, a) == 0,
    {
        let r = Stash {
            id,
            name,
            vaults: Vec::new(),
            deposited_amounts: PendingDeposits::new(),
            authorized_users: AuthorizationRegistry::new(creator),
        };
        assert(r.vaults() =~= Map::<Seq<char>, TokenVault>::empty());
        r
    }

    pub fn id(&self) -> (r: u64)
        ensures
            r == self.stash_id(),
    {
        self.id
    }

    pub fn name(&self) -> (r: &str)
        ensures
            r@ == self.stash_name(),
    {
        self.name.as_str()
    }

    pub fn is_authorized(&self, who: &AccountName) -> (r: bool)
        ensures
            r == self.authorized().contains(who@),
    {
        self.authorized_users.is_authorized(who)
    }

    /// The pending balance of `holder` in `token_id`.
    pub fn pending_balance(&self, holder: &AccountName, token_id: &AccountName) -> (r: u128)
        requires
            self.wf(),
        ensures
            r == self.pending(holder@, token_id@),
    {
        self.deposited_amounts.amount_of(holder, token_id)
    }

    fn find_vault(&self, token_id: &AccountName) -> (r: Option<usize>)
        requires
            self.wf(),
        ensures
            match r {
                Some(i) => i < self.vaults@.len() && self.vaults@[i as int].asset() == token_id@
                    && self.vaults().contains_key(token_id@) && self.vaults()[token_id@]
                    == self.vaults@[i as int],
                None => !self.vaults().contains_key(token_id@),
            },
    {
        let mut i: usize = 0;
        while i < self.vaults.len()
            invariant
                self.wf(),
                i <= self.vaults@.len(),
                forall|j: int| 0 <= j < i ==> (#[trigger] self.vaults@[j]).asset() != token_id@,
            decreases self.vaults@.len() - i,
        {
            let t = self.vaults[i].get_token_type();
            if t.equals(token_id) {
                proof {
                    lemma_vault_map_at(self.vaults@, i as int);
                }
                return Some(i);
            }
            i = i + 1;
        }
        None
    }

    /// The vault of `token_id`, if the stash has one.
    pub fn vault(&self, token_id: &AccountName) -> (r: Option<&TokenVault>)
        requires
            self.wf(),
        ensures
            r is Some <==> self.vaults().contains_key(token_id@),
            r matches Some(v) ==> *v == self.vaults()[token_id@] && v.wf(),
    {
        match self.find_vault(token_id) {
            Some(i) => Some(&self.vaults[i]),
            None => None,
        }
    }

    /// Adds a fee-free vault for `token`; see `add_vault_with_fee`.
    pub fn add_vault(&mut self, caller: &AccountName, token: AccountName, allow_list: &AllowList) -> (r:
        Result<(), StashError>)
        requires
            old(self).wf(),
        ensures
            final(self).wf(),
            add_vault_outcome(*old(self), *final(self), caller@, token@, allow_list@, 0, r),
    {
        self.add_vault_with_fee(caller, token, allow_list, 0)
    }

    /// `caller`, who must be authorized, adds a vault for `token`, which must be on
    /// the allow-list, charging `entry_fee_bp` basis points on deposits. A vault
    /// the stash already has for `token` is kept as it is.
    pub fn add_vault_with_fee(
        &mut self,
        caller: &AccountName,
        token: AccountName,
        allow_list: &AllowList,
        entry_fee_bp: u128,
    ) -> (r: Result<(), StashError>)
        requires
            old(self).wf(),
            entry_fee_bp <= BASIS_POINTS,
        ensures
            final(self).wf(),
            add_vault_outcome(*old(self), *final(self), caller@, token@, allow_list@, entry_fee_bp as int, r),
    {
        self.authorized_users.assert_authorized(caller)?;
        if !allow_list.contains(&token) {
            return Err(StashError::AssetNotSupported);
        }
        if self.find_vault(&token).is_some() {
            assert(self.vaults().dom() =~= old(self).vaults().dom().insert(token@));
            return Ok(());
        }
        let vault = TokenVault::with_entry_fee(token, allow_list, entry_fee_bp)?;
        proof {
            lemma_vault_map_push(self.vaults@, vault);
        }
        self.vaults.push(vault);
        Ok(())
    }

    /// `caller`, who must be authorized, authorizes `target`.
    pub fn authorize_contributor(&mut self, caller: &AccountName, target: AccountName) -> (r:
        Result<(), StashError>)
        requires
            old(self).wf(),
        ensures
            final(self).wf(),
            authorize_outcome(*old(self), *final(self), caller@, target@, r),
    {
        self.authorized_users.authorize(caller, target)
    }

    /// `caller`, who must be authorized, revokes the authorization of `target`.
    pub fn revoke_contributor(&mut self, caller: &AccountName, target: &AccountName) -> (r: Result<
        (),
        StashError,
    >)
        requires
            old(self).wf(),
        ensures
            final(self).wf(),
            revoke_outcome(*old(self), *final(self), caller@, target@, r),
    {
        self.authorized_users.revoke(caller, target)
    }
}

impl Stash {
    /// `caller`, who must be authorized, deposits `amount` of `token_id`, which must
    /// have a vault, into its pending balance. Returns the amount deposited;
    /// `pending_balance` reads the total.
    pub fn deposit(&mut self, caller: &AccountName, token_id: &AccountName, amount: u128) -> (r:
        Result<u128, StashError>)
        requires
            old(self).wf(),
        ensures
            final(self).wf(),
            deposit_outcome(*old(self), *final(self), caller@, token_id@, amount as int, r),
    {
        self.authorized_users.assert_authorized(caller)?;
        if self.find_vault(token_id).is_none() {
            return Err(StashError::NotFound);
        }
        let current = self.deposited_amounts.amount_of(caller, token_id);
        if amount == 0 {
            return Ok(0);
        }
        match current.checked_add(amount) {
            Some(_) => {},
            None => {
                return Err(StashError::ArithmeticOverflow);
            },
        };
        self.deposited_amounts.credit(caller, token_id, amount);
        Ok(amount)
    }

    /// `caller`, who must be authorized, moves `amount` of its pending balance of
    /// `token_id` into the asset's vault. Returns the shares minted.
    pub fn add_liquidity(&mut self, caller: &AccountName, token_id: &AccountName, amount: u128) -> (r:
        Result<u128, StashError>)
        requires
            old(self).wf(),
        ensures
            final(self).wf(),
            add_liquidity_outcome(*old(self), *final(self), caller@, token_id@, amount as int, r),
    {
        self.authorized_users.assert_authorized(caller)?;
        let i = match self.find_vault(token_id) {
            Some(i) => i,
            None => {
                return Err(StashError::NotFound);
            },
        };
        if amount == 0 {
            return Err(StashError::ZeroAmount);
        }
        let pending = self.deposited_amounts.amount_of(caller, token_id);
        if pending < amount {
            return Err(StashError::InsufficientPendingBalance);
        }
        self.vaults[i].preview_deposit(caller, amount)?;
        let ghost before = self.vaults@;
        let minted = match self.vaults[i].add_liquidity(caller, amount) {
            Ok(m) => m,
            Err(e) => {
                return Err(e);
            },
        };
        proof {
            lemma_vault_map_set(before, i as int, self.vaults@[i as int]);
            assert(self.vaults@ == before.update(i as int, self.vaults@[i as int]));
            lemma_vault_map_at(self.vaults@, i as int);
        }
        self.deposited_amounts.debit(caller, token_id, amount);
        Ok(minted)
    }

    /// `caller`, who must be authorized, withdraws `shares` of its shares from the
    /// vault of `token_id`; the assets they pay out go to its pending balance.
    /// Returns those assets.
    pub fn remove_liquidity(&mut self, caller: &AccountName, token_id: &AccountName, shares: u128) -> (r:
        Result<u128, StashError>)
        requires
            old(self).wf(),
        ensures
            final(self).wf(),
            remove_liquidity_outcome(*old(self), *final(self), caller@, token_id@, shares as int, r),
    {
        self.authorized_users.assert_authorized(caller)?;
        let i = match self.find_vault(token_id) {
            Some(i) => i,
            None => {
                return Err(StashError::NotFound);
            },
        };
        let assets = self.vaults[i].preview_withdraw(caller, shares)?;
        let pending = self.deposited_amounts.amount_of(caller, token_id);
        if pending.checked_add(assets).is_none() {
            return Err(StashError::ArithmeticOverflow);
        }
        let ghost before = self.vaults@;
        let got = match self.vaults[i].remove_liquidity(caller, shares) {
            Ok(a) => a,
            Err(e) => {
                return Err(e);
            },
        };
        proof {
            lemma_vault_map_set(before, i as int, self.vaults@[i as int]);
            assert(self.vaults@ == before.update(i as int, self.vaults@[i as int]));
            lemma_vault_map_at(self.vaults@, i as int);
        }
        self.deposited_amounts.credit(caller, token_id, got);
        Ok(got)
    }

    /// `caller`, who must be authorized, takes `amount` out of its pending balance
    /// of `token_id`, to be transferred to it. A caller left with no pending balance
    /// in any asset loses its authorization.
    pub fn withdraw(&mut self, caller: &AccountName, token_id: &AccountName, amount: u128) -> (r:
        Result<(), StashError>)
        requires
            old(self).wf(),
        ensures
            final(self).wf(),
            withdraw_outcome(*old(self), *final(self), caller@, token_id@, amount as int, r),
    {
        self.authorized_users.assert_authorized(caller)?;
        let pending = self.deposited_amounts.amount_of(caller, token_id);
        if pending < amount {
            return Err(StashError::InsufficientPendingBalance);
        }
        self.deposited_amounts.debit(caller, token_id, amount);
        let still_holds = self.deposited_amounts.holds_any_of(caller);
        proof {
            if still_holds {
                let a = choose|a: Seq<char>| self.deposited_amounts.amount(caller@, a) > 0;
                assert(self.pending(caller@, a) > 0);
            } else {
                assert forall|a: Seq<char>| self.pending(caller@, a) == 0 by {
                    assert(!(self.deposited_amounts.amount(caller@, a) > 0));
                }
            }
            assert(self.holds_pending(caller@) == still_holds);
        }
        if !still_holds {
            self.authorized_users.remove(caller);
        }
        Ok(())
    }
    /// Undoes a withdrawal of `amount` of `token_id` by `holder` whose transfer
    /// failed: the amount returns to the pending balance, and `holder`, who may have
    /// lost its authorization to that withdrawal, is authorized again. This is the
    /// host's answer to a failed transfer, not a contributor's call, so it checks no
    /// authorization.
    pub fn restore_withdrawal(&mut self, holder: &AccountName, token_id: &AccountName, amount: u128) -> (r:
        Result<(), StashError>)
        requires
            old(self).wf(),
        ensures
            final(self).wf(),
            restore_outcome(*old(self), *final(self), holder@, token_id@, amount as int, r),
    {
        if amount == 0 {
            return Err(StashError::ZeroAmount);
        }
        let pending = self.deposited_amounts.amount_of(holder, token_id);
        if pending.checked_add(amount).is_none() {
            return Err(StashError::ArithmeticOverflow);
        }
        self.deposited_amounts.credit(holder, token_id, amount);
        self.authorized_users.insert(holder.clone());
        Ok(())
    }
}

/// What withdrawing `shares` from `v` pays out.
pub open spec fn payout(v: TokenVault, shares: int) -> int {
    crate::math::assets_for(shares, v.assets() as int, v.supply() as int)
}

/// `post` is `pre` with the pending balance of `h` in `a` set to `amount` and
/// every other pending balance kept.
pub open spec fn pending_changed(
    pre: Stash,
    post: Stash,
    h: Seq<char>,
    a: Seq<char>,
    amount: int,
) -> bool {
    &&& post.stash_id() == pre.stash_id()
    &&& post.stash_name() == pre.stash_name()
    &&& post.pending(h, a) == amount
    &&& forall|h2: Seq<char>, a2: Seq<char>|
        !(h2 == h && a2 == a) ==> post.pending(h2, a2) == pre.pending(h2, a2)
}

/// `post` differs from `pre` in its authorizations at most.
pub open spec fn same_holdings(pre: Stash, post: Stash) -> bool {
    &&& post.stash_id() == pre.stash_id()
    &&& post.stash_name() == pre.stash_name()
    &&& post.vaults() == pre.vaults()
    &&& forall|h: Seq<char>, a: Seq<char>| post.pending(h, a) == pre.pending(h, a)
}

/// `post` is `pre` with a vault for `asset`: a fresh one charging `fee_bp` basis
/// points unless `pre` already had one, which is then kept as it was.
pub open spec fn vault_added(pre: Stash, post: Stash, asset: Seq<char>, fee_bp: nat) -> bool {
    &&& post.stash_id() == pre.stash_id()
    &&& post.stash_name() == pre.stash_name()
    &&& post.authorized() == pre.authorized()
    &&& forall|h: Seq<char>, a: Seq<char>| post.pending(h, a) == pre.pending(h, a)
    &&& post.vaults().dom() == pre.vaults().dom().insert(asset)
    &&& forall|a: Seq<char>| #[trigger]
        pre.vaults().contains_key(a) ==> post.vaults()[a] == pre.vaults()[a]
    &&& !pre.vaults().contains_key(asset) ==> is_fresh_vault(post.vaults()[asset], asset, fee_bp)
}

/// What `Stash::deposit` does. It succeeds exactly when the caller is authorized,
/// the asset has a vault and the new balance fits in 128 bits; otherwise it
/// refuses with the error of the first check that fails and changes nothing. On
/// success the caller's pending balance grows by `amount` (a zero amount changes
/// nothing), and the amount deposited is returned.
pub open spec fn deposit_outcome(
    pre: Stash,
    post: Stash,
    caller: Seq<char>,
    token: Seq<char>,
    amount: int,
    r: Result<u128, StashError>,
) -> bool {
    &&& r is Ok <==> pre.authorized().contains(caller) && pre.vaults().contains_key(
        token,
    ) && pre.pending(caller, token) + amount <= u128::MAX
    &&& !pre.authorized().contains(caller) ==> r == Err::<u128, StashError>(
        StashError::Unauthorized,
    )
    &&& pre.authorized().contains(caller) && !pre.vaults().contains_key(token)
        ==> r == Err::<u128, StashError>(StashError::NotFound)
    &&& pre.authorized().contains(caller) && pre.vaults().contains_key(token)
        && pre.pending(caller, token) + amount > u128::MAX ==> r
        == Err::<u128, StashError>(StashError::ArithmeticOverflow)
    &&& r is Err ==> post == pre
    &&& r is Ok && amount == 0 ==> post == pre
    &&& r matches Ok(b) ==> {
        &&& b == amount
        &&& pending_changed(pre, post, caller, token, pre.pending(caller, token) + amount)
        &&& post.vaults() == pre.vaults()
        &&& post.authorized() == pre.authorized()
    }
}

/// What `Stash::add_liquidity` does. It succeeds exactly when the caller is
/// authorized, the asset has a vault, `amount` is positive and within the caller's
/// pending balance, and the vault's results fit in 128 bits; otherwise it refuses
/// with the error of the first check that fails and changes nothing. On success the
/// pending balance shrinks by `amount`, which the vault takes as a deposit of the
/// caller, and the shares minted are returned.
pub open spec fn add_liquidity_outcome(
    pre: Stash,
    post: Stash,
    caller: Seq<char>,
    token: Seq<char>,
    amount: int,
    r: Result<u128, StashError>,
) -> bool {
    &&& r is Ok <==> pre.authorized().contains(caller) && pre.vaults().contains_key(
        token,
    ) && 0 < amount <= pre.pending(caller, token) && deposit_fits(
        pre.vaults()[token],
        amount as int,
    )
    &&& !pre.authorized().contains(caller) ==> r == Err::<u128, StashError>(
        StashError::Unauthorized,
    )
    &&& pre.authorized().contains(caller) && !pre.vaults().contains_key(token)
        ==> r == Err::<u128, StashError>(StashError::NotFound)
    &&& pre.authorized().contains(caller) && pre.vaults().contains_key(token)
        && amount == 0 ==> r == Err::<u128, StashError>(StashError::ZeroAmount)
    &&& pre.authorized().contains(caller) && pre.vaults().contains_key(token)
        && 0 < amount && amount > pre.pending(caller, token) ==> r == Err::<
        u128,
        StashError,
    >(StashError::InsufficientPendingBalance)
    &&& pre.authorized().contains(caller) && pre.vaults().contains_key(token)
        && 0 < amount <= pre.pending(caller, token) && !deposit_fits(
        pre.vaults()[token],
        amount as int,
    ) ==> r == Err::<u128, StashError>(StashError::ArithmeticOverflow)
    &&& r is Err ==> post == pre
    &&& r matches Ok(minted) ==> {
        &&& pending_changed(
            pre,
            post,
            caller,
            token,
            pre.pending(caller, token) - amount,
        )
        &&& post.vaults() == pre.vaults().insert(
            token,
            post.vaults()[token],
        )
        &&& deposit_effect(
            pre.vaults()[token],
            post.vaults()[token],
            caller,
            amount as int,
            minted as int,
        )
        &&& post.authorized() == pre.authorized()
    }
}

/// What `Stash::remove_liquidity` does. It succeeds exactly when the caller is
/// authorized, the asset has a vault, `shares` is positive and within the caller's
/// shares, and the results fit in 128 bits; otherwise it refuses with the error of
/// the first check that fails and changes nothing. On success the vault burns the
/// shares, the assets they stand for go to the caller's pending balance, and those
/// assets are returned.
pub open spec fn remove_liquidity_outcome(
    pre: Stash,
    post: Stash,
    caller: Seq<char>,
    token: Seq<char>,
    shares: int,
    r: Result<u128, StashError>,
) -> bool {
    &&& r is Ok <==> pre.authorized().contains(caller) && pre.vaults().contains_key(
        token,
    ) && 0 < shares <= pre.vaults()[token].balance(caller) && withdraw_fits(
        pre.vaults()[token],
        shares as int,
    ) && pre.pending(caller, token) + payout(
        pre.vaults()[token],
        shares as int,
    ) <= u128::MAX
    &&& !pre.authorized().contains(caller) ==> r == Err::<u128, StashError>(
        StashError::Unauthorized,
    )
    &&& pre.authorized().contains(caller) && !pre.vaults().contains_key(token)
        ==> r == Err::<u128, StashError>(StashError::NotFound)
    &&& pre.authorized().contains(caller) && pre.vaults().contains_key(token)
        && (shares == 0 || shares > pre.vaults()[token].balance(caller)) ==> r
        == Err::<u128, StashError>(StashError::InsufficientShares)
    &&& pre.authorized().contains(caller) && pre.vaults().contains_key(token)
        && 0 < shares <= pre.vaults()[token].balance(caller) && !(withdraw_fits(
        pre.vaults()[token],
        shares as int,
    ) && pre.pending(caller, token) + payout(
        pre.vaults()[token],
        shares as int,
    ) <= u128::MAX) ==> r == Err::<u128, StashError>(StashError::ArithmeticOverflow)
    &&& r is Err ==> post == pre
    &&& r matches Ok(assets) ==> {
        &&& pending_changed(
            pre,
            post,
            caller,
            token,
            pre.pending(caller, token) + assets,
        )
        &&& post.vaults() == pre.vaults().insert(
            token,
            post.vaults()[token],
        )
        &&& withdraw_effect(
            pre.vaults()[token],
            post.vaults()[token],
            caller,
            shares as int,
            assets as int,
        )
        &&& post.authorized() == pre.authorized()
    }
}

/// What `Stash::withdraw` does. It succeeds exactly when the caller is authorized
/// and `amount` is within its pending balance; otherwise it refuses
/// with the error of the first check that fails and changes nothing. On success the
/// pending balance shrinks by `amount` (an emptied balance is gone), and a caller
/// with no pending balance left in any asset is no longer authorized.
pub open spec fn withdraw_outcome(
    pre: Stash,
    post: Stash,
    caller: Seq<char>,
    token: Seq<char>,
    amount: int,
    r: Result<(), StashError>,
) -> bool {
    &&& r is Ok <==> pre.authorized().contains(caller) && amount <= pre.pending(caller, token)
    &&& !pre.authorized().contains(caller) ==> r == Err::<(), StashError>(
        StashError::Unauthorized,
    )
    &&& pre.authorized().contains(caller) && amount > pre.pending(
        caller,
        token,
    ) ==> r == Err::<(), StashError>(StashError::InsufficientPendingBalance)
    &&& r is Err ==> post == pre
    &&& r is Ok ==> {
        &&& pending_changed(
            pre,
            post,
            caller,
            token,
            pre.pending(caller, token) - amount,
        )
        &&& post.vaults() == pre.vaults()
        &&& post.authorized() == if post.holds_pending(caller) {
            pre.authorized()
        } else {
            pre.authorized().remove(caller)
        }
    }
}

/// What `Stash::add_vault_with_fee` does. It succeeds exactly when the caller is
/// authorized and the asset is on the allow-list; otherwise it refuses with the
/// error of the first check that fails and changes nothing. On success the stash has
/// a vault for the asset: the one it had, or a fresh one.
pub open spec fn add_vault_outcome(
    pre: Stash,
    post: Stash,
    caller: Seq<char>,
    token: Seq<char>,
    allowed: Set<Seq<char>>,
    entry_fee_bp: int,
    r: Result<(), StashError>,
) -> bool {
    &&& r is Ok <==> pre.authorized().contains(caller) && allowed.contains(token)
    &&& !pre.authorized().contains(caller) ==> r == Err::<(), StashError>(
        StashError::Unauthorized,
    )
    &&& pre.authorized().contains(caller) && !allowed.contains(token) ==> r
        == Err::<(), StashError>(StashError::AssetNotSupported)
    &&& r is Err ==> post == pre
    &&& r is Ok ==> vault_added(pre, post, token, entry_fee_bp as nat)
}

/// What `Stash::authorize_contributor` does: an authorized caller authorizes
/// `target`, and nothing else changes; any other caller is refused.
pub open spec fn authorize_outcome(
    pre: Stash,
    post: Stash,
    caller: Seq<char>,
    target: Seq<char>,
    r: Result<(), StashError>,
) -> bool {
    &&& r is Ok <==> pre.authorized().contains(caller)
    &&& r is Err ==> r == Err::<(), StashError>(StashError::Unauthorized) && post
        == pre
    &&& r is Ok ==> post.authorized() == pre.authorized().insert(target)
        && same_holdings(pre, post)
}

/// What `Stash::revoke_contributor` does: an authorized caller revokes the
/// authorization of `target`, and nothing else changes; any other caller is refused.
pub open spec fn revoke_outcome(
    pre: Stash,
    post: Stash,
    caller: Seq<char>,
    target: Seq<char>,
    r: Result<(), StashError>,
) -> bool {
    &&& r is Ok <==> pre.authorized().contains(caller)
    &&& r is Err ==> r == Err::<(), StashError>(StashError::Unauthorized) && post
        == pre
    &&& r is Ok ==> post.authorized() == pre.authorized().remove(target)
        && same_holdings(pre, post)
}

/// What `Stash::restore_withdrawal` does. It succeeds exactly when `amount` is
/// positive and the restored balance fits in 128 bits; otherwise it refuses and
/// changes nothing. On success the holder's pending balance grows by `amount` and
/// the holder is authorized.
pub open spec fn restore_outcome(
    pre: Stash,
    post: Stash,
    holder: Seq<char>,
    token: Seq<char>,
    amount: int,
    r: Result<(), StashError>,
) -> bool {
    &&& r is Ok <==> 0 < amount && pre.pending(holder, token) + amount <= u128::MAX
    &&& amount == 0 ==> r == Err::<(), StashError>(StashError::ZeroAmount)
    &&& 0 < amount && pre.pending(holder, token) + amount > u128::MAX ==> r == Err::<
        (),
        StashError,
    >(StashError::ArithmeticOverflow)
    &&& r is Err ==> post == pre
    &&& r is Ok ==> {
        &&& pending_changed(pre, post, holder, token, pre.pending(holder, token) + amount)
        &&& post.vaults() == pre.vaults()
        &&& post.authorized() == pre.authorized().insert(holder)
    }
}

} // verus!
