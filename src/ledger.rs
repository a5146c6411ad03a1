//! Per-user, per-asset available/locked balances.
use vstd::prelude::*;

verus! {

/// The funds of one user in one asset, as mathematical values.
pub struct Funds {
    pub available: nat,
    pub locked: nat,
}

/// One stored balance row.
pub struct UserBalance {
    pub user_id: String,
    pub asset: String,
    pub available: u64,
    pub locked: u64,
}

/// Why a ledger operation was refused. A refused operation changes nothing.
#[derive(Clone, Copy, Debug, PartialEq, Eq, Structural)]
pub enum LedgerError {
    /// `available` is below the amount to lock.
    InsufficientFunds,
    /// `locked` is below the amount to release or settle.
    InsufficientLocked,
    /// The total held of the asset, over all users, would not fit in a `u64`.
    Overflow,
}

pub open spec fn row_is(e: UserBalance, u: Seq<char>, a: Seq<char>) -> bool {
    e.user_id@ == u && e.asset@ == a
}

/// What row `e` adds to the total held in asset `a`.
pub open spec fn share(e: UserBalance, a: Seq<char>) -> int {
    if e.asset@ == a {
        e.available + e.locked
    } else {
        0
    }
}

/// `available + locked` of asset `a`, summed over all rows of `s`.
pub open spec fn asset_total(s: Seq<UserBalance>, a: Seq<char>) -> int
    decreases s.len(),
{
    if s.len() == 0 {
        0
    } else {
        asset_total(s.drop_last(), a) + share(s.last(), a)
    }
}

proof fn lemma_total_update(s: Seq<UserBalance>, i: int, x: UserBalance, a: Seq<char>)
    requires
        0 <= i < s.len(),
    ensures
        asset_total(s.update(i, x), a) == asset_total(s, a) - share(s[i], a) + share(x, a),
    decreases s.len(),
{
    let t = s.update(i, x);
    if i == s.len() - 1 {
        assert(t.drop_last() =~= s.drop_last());
    } else {
        assert(t.drop_last() =~= s.drop_last().update(i, x));
        lemma_total_update(s.drop_last(), i, x, a);
    }
}

proof fn lemma_total_nonneg(s: Seq<UserBalance>, a: Seq<char>)
    ensures
        asset_total(s, a) >= 0,
    decreases s.len(),
{
    if s.len() > 0 {
        lemma_total_nonneg(s.drop_last(), a);
    }
}

/// One row's share, or two distinct rows' shares together, are at most the total.
proof fn lemma_shares_le_total(s: Seq<UserBalance>, i: int, j: int, a: Seq<char>)
    requires
        0 <= i < s.len(),
        0 <= j < s.len(),
    ensures
        share(s[i], a) <= asset_total(s, a),
        i != j ==> share(s[i], a) + share(s[j], a) <= asset_total(s, a),
    decreases s.len(),
{
    let t = s.drop_last();
    let n = s.len() - 1;
    lemma_total_nonneg(t, a);
    if i < n && j < n {
        lemma_shares_le_total(t, i, j, a);
        assert(t[i] == s[i] && t[j] == s[j]);
    } else if i < n {
        lemma_shares_le_total(t, i, i, a);
        assert(t[i] == s[i]);
    } else if j < n {
        lemma_shares_le_total(t, j, j, a);
        assert(t[j] == s[j]);
    }
}

/// The total over a prefix of the rows.
proof fn lemma_total_prefix(s: Seq<UserBalance>, i: int, a: Seq<char>)
    requires
        0 <= i < s.len(),
    ensures
        asset_total(s.subrange(0, i + 1), a) == asset_total(s.subrange(0, i), a) + share(s[i], a),
        asset_total(s.subrange(0, i + 1), a) <= asset_total(s, a),
    decreases s.len() - i,
{
    assert(s.subrange(0, i + 1).drop_last() =~= s.subrange(0, i));
    if i + 1 == s.len() {
        assert(s.subrange(0, i + 1) =~= s);
    } else {
        lemma_total_prefix(s, i + 1, a);
        lemma_total_nonneg(s.subrange(0, i + 1), a);
    }
}

impl UserBalance {
    pub fn copy(&self) -> (r: UserBalance)
        ensures
            r == *self,
    {
        UserBalance { user_id: self.user_id.clone(), asset: self.asset.clone(), available: self.available, locked: self.locked }
    }
}

/// `after` is `before` once `amount` of `asset` moved from the locked funds of
/// `from` to the available funds of `to`.
pub open spec fn settled(before: Ledger, after: Ledger, from: Seq<char>, to: Seq<char>, asset: Seq<char>, amount: nat) -> bool {
    &&& from == to ==> after.available(from, asset) == before.available(from, asset) + amount
        && after.locked(from, asset) == before.locked(from, asset) - amount
        && after.same_except(&before, from, asset)
    &&& from != to ==> after.balance_of(from, asset) == (Funds {
            available: before.available(from, asset),
            locked: (before.locked(from, asset) - amount) as nat,
        })
        && after.balance_of(to, asset) == (Funds {
            available: before.available(to, asset) + amount,
            locked: before.locked(to, asset),
        })
        && after.same_except2(&before, from, to, asset)
}

/// Every balance of `after` is that of `before` with `amount` of `asset` taken
/// out of the locked funds of `from` and added to the available funds of `to`.
pub open spec fn moved(before: Ledger, after: Ledger, from: Seq<char>, to: Seq<char>, asset: Seq<char>, amount: int) -> bool {
    &&& forall|u: Seq<char>, a: Seq<char>| #[trigger] after.available(u, a)
        == before.available(u, a) + (if u == to && a == asset { amount } else { 0 })
    &&& forall|u: Seq<char>, a: Seq<char>| #[trigger] after.locked(u, a)
        == before.locked(u, a) - (if u == from && a == asset { amount } else { 0 })
}

/// The balance store. Rows are created lazily; a (user, asset) pair without a
/// row holds zero in both fields.
pub struct Ledger {
    pub entries: Vec<UserBalance>,
}

impl Ledger {
    /// At most one row per (user, asset), and the total held of each asset
    /// fits in a `u64`.
    pub open spec fn wf(&self) -> bool {
        &&& forall|i: int, j: int|
            0 <= i < self.entries.len() && 0 <= j < self.entries.len() && i != j
                ==> !row_is(#[trigger] self.entries@[i], self.entries@[j].user_id@, #[trigger] self.entries@[j].asset@)
        &&& forall|i: int|
            0 <= i < self.entries.len() ==> #[trigger] self.entries@[i].available + self.entries@[i].locked <= u64::MAX
        &&& forall|a: Seq<char>| #[trigger] asset_total(self.entries@, a) <= u64::MAX
    }

    pub open spec fn has_row(&self, u: Seq<char>, a: Seq<char>) -> bool {
        exists|i: int| 0 <= i < self.entries.len() && row_is(#[trigger] self.entries@[i], u, a)
    }

    /// The funds that `u` holds in asset `a`.
    pub open spec fn balance_of(&self, u: Seq<char>, a: Seq<char>) -> Funds {
        if self.has_row(u, a) {
            let i = choose|i: int| 0 <= i < self.entries.len() && row_is(#[trigger] self.entries@[i], u, a);
            Funds { available: self.entries@[i].available as nat, locked: self.entries@[i].locked as nat }
        } else {
            Funds { available: 0, locked: 0 }
        }
    }

    /// `available + locked` of asset `a`, summed over all users.
    pub open spec fn total_of(&self, a: Seq<char>) -> int {
        asset_total(self.entries@, a)
    }

    pub fn copy(&self) -> (r: Ledger)
        ensures
            r.entries@ == self.entries@,
    {
        let mut entries: Vec<UserBalance> = Vec::new();
        let mut i: usize = 0;
        while i < self.entries.len()
            invariant
                i <= self.entries.len(),
                entries@ == self.entries@.subrange(0, i as int),
            decreases self.entries.len() - i,
        {
            entries.push(self.entries[i].copy());
            i = i + 1;
            assert(entries@ =~= self.entries@.subrange(0, i as int));
        }
        assert(self.entries@.subrange(0, self.entries@.len() as int) =~= self.entries@);
        assert(entries@ =~= self.entries@);
        Ledger { entries }
    }

    pub open spec fn available(&self, u: Seq<char>, a: Seq<char>) -> nat {
        self.balance_of(u, a).available
    }

    pub open spec fn locked(&self, u: Seq<char>, a: Seq<char>) -> nat {
        self.balance_of(u, a).locked
    }

    /// Every balance other than that of (`u`, `a`) is the same in both ledgers.
    pub open spec fn same_except(&self, other: &Ledger, u: Seq<char>, a: Seq<char>) -> bool {
        forall|u2: Seq<char>, a2: Seq<char>|
            !(u2 == u && a2 == a) ==> #[trigger] self.balance_of(u2, a2) == other.balance_of(u2, a2)
    }

    /// Every balance other than those of (`u`, `a`) and (`v`, `a`) is the same in both ledgers.
    pub open spec fn same_except2(&self, other: &Ledger, u: Seq<char>, v: Seq<char>, a: Seq<char>) -> bool {
        forall|u2: Seq<char>, a2: Seq<char>|
            !(u2 == u && a2 == a) && !(u2 == v && a2 == a)
                ==> #[trigger] self.balance_of(u2, a2) == other.balance_of(u2, a2)
    }

    pub fn new() -> (r: Ledger)
        ensures
            r.wf(),
            forall|u: Seq<char>, a: Seq<char>| #[trigger] r.balance_of(u, a) == (Funds { available: 0, locked: 0 }),
            forall|a: Seq<char>| #[trigger] r.total_of(a) == 0,
    {
        Ledger { entries: Vec::new() }
    }

    proof fn lemma_row_value(&self, i: int)
        requires
            self.wf(),
            0 <= i < self.entries.len(),
        ensures
            self.balance_of(self.entries@[i].user_id@, self.entries@[i].asset@)
                == (Funds { available: self.entries@[i].available as nat, locked: self.entries@[i].locked as nat }),
    {
        let u = self.entries@[i].user_id@;
        let a = self.entries@[i].asset@;
        assert(row_is(self.entries@[i], u, a));
        assert(self.has_row(u, a));
        let j = choose|j: int| 0 <= j < self.entries.len() && row_is(#[trigger] self.entries@[j], u, a);
        if j != i {
            assert(!row_is(self.entries@[j], self.entries@[i].user_id@, self.entries@[i].asset@));
        }
    }

    /// Current funds of (`user`, `asset`), zero where none were ever recorded.
    pub fn funds(&self, user: &String, asset: &String) -> (r: (u64, u64))
        requires
            self.wf(),
        ensures
            r.0 == self.available(user@, asset@),
            r.1 == self.locked(user@, asset@),
    {
        match self.find(user, asset) {
            Some(i) => {
                proof { self.lemma_row_value(i as int); }
                (self.entries[i].available, self.entries[i].locked)
            },
            None => (0, 0),
        }
    }

    /// Moves `amount` from `available` to `locked`, provided `available >= amount`.
    pub fn lock(&mut self, user: &String, asset: &String, amount: u64) -> (r: Result<(), LedgerError>)
        requires
            old(self).wf(),
        ensures
            final(self).wf(),
            r is Ok <==> old(self).available(user@, asset@) >= amount,
            r is Err ==> r == Err::<(), LedgerError>(LedgerError::InsufficientFunds) && *final(self) == *old(self),
            r is Ok ==> final(self).available(user@, asset@) == old(self).available(user@, asset@) - amount
                && final(self).locked(user@, asset@) == old(self).locked(user@, asset@) + amount
                && final(self).same_except(old(self), user@, asset@),
            forall|a: Seq<char>| #[trigger] final(self).total_of(a) == old(self).total_of(a),
    {
        let (avail, locked) = self.funds(user, asset);
        if avail < amount {
            return Err(LedgerError::InsufficientFunds);
        }
        let i = self.find_or_create(user, asset);
        proof { self.lemma_row_value(i as int); }
        self.write_row(i, avail - amount, locked + amount);
        Ok(())
    }

    /// Moves `amount` from `locked` back to `available`, provided `locked >= amount`.
    pub fn unlock(&mut self, user: &String, asset: &String, amount: u64) -> (r: Result<(), LedgerError>)
        requires
            old(self).wf(),
        ensures
            final(self).wf(),
            r is Ok <==> old(self).locked(user@, asset@) >= amount,
            r is Err ==> r == Err::<(), LedgerError>(LedgerError::InsufficientLocked) && *final(self) == *old(self),
            r is Ok ==> final(self).available(user@, asset@) == old(self).available(user@, asset@) + amount
                && final(self).locked(user@, asset@) == old(self).locked(user@, asset@) - amount
                && final(self).same_except(old(self), user@, asset@),
            r is Ok ==> moved(*old(self), *final(self), user@, user@, asset@, amount as int),
            forall|a: Seq<char>| #[trigger] final(self).total_of(a) == old(self).total_of(a),
    {
        let (avail, locked) = self.funds(user, asset);
        if locked < amount {
            return Err(LedgerError::InsufficientLocked);
        }
        let i = self.find_or_create(user, asset);
        proof { self.lemma_row_value(i as int); }
        self.write_row(i, avail + amount, locked - amount);
        Ok(())
    }

    /// One leg of a fill: takes `amount` out of `from`'s locked funds and adds it
    /// to `to`'s available funds, both in `asset`.
#[verifier::rlimit(40)]
    pub fn settle(&mut self, from: &String, to: &String, asset: &String, amount: u64) -> (r: Result<(), LedgerError>)
        requires
            old(self).wf(),
        ensures
            final(self).wf(),
            r is Ok <==> old(self).locked(from@, asset@) >= amount,
            r is Err ==> *final(self) == *old(self) && r == Err::<(), LedgerError>(LedgerError::InsufficientLocked),
            r is Ok ==> settled(*old(self), *final(self), from@, to@, asset@, amount as nat),
            r is Ok ==> moved(*old(self), *final(self), from@, to@, asset@, amount as int),
            forall|a: Seq<char>| #[trigger] final(self).total_of(a) == old(self).total_of(a),
    {
        let (from_avail, from_locked) = self.funds(from, asset);
        if from_locked < amount {
            return Err(LedgerError::InsufficientLocked);
        }
        if *from == *to {
            return self.unlock(from, asset, amount);
        }
        let (to_avail, to_locked) = self.funds(to, asset);
        proof { self.lemma_holdings_le_total(from@, to@, asset@); }
        let i = self.find_or_create(from, asset);
        proof { self.lemma_row_value(i as int); }
        self.write_row(i, from_avail, from_locked - amount);
        let j = self.find_or_create(to, asset);
        proof {
            self.lemma_row_value(j as int);
            self.lemma_holdings_le_total(from@, to@, asset@);
        }
        self.write_row(j, to_avail + amount, to_locked);
        Ok(())
    }

    /// Adds `amount` to the available funds of (`user`, `asset`) and returns the
    /// new available amount. This is the only operation that changes a total.
    pub fn credit(&mut self, user: &String, asset: &String, amount: u64) -> (r: Result<u64, LedgerError>)
        requires
            old(self).wf(),
        ensures
            final(self).wf(),
            r is Ok <==> old(self).total_of(asset@) + amount <= u64::MAX,
            r is Err ==> r == Err::<u64, LedgerError>(LedgerError::Overflow) && *final(self) == *old(self),
            r matches Ok(n) ==> n == final(self).available(user@, asset@)
                && final(self).available(user@, asset@) == old(self).available(user@, asset@) + amount
                && final(self).locked(user@, asset@) == old(self).locked(user@, asset@)
                && final(self).same_except(old(self), user@, asset@),
            r is Ok ==> forall|a: Seq<char>| #[trigger] final(self).total_of(a) == old(self).total_of(a) + (if a == asset@ { amount as int } else { 0 }),
    {
        let total = self.supply(asset);
        if amount > u64::MAX - total {
            return Err(LedgerError::Overflow);
        }
        let (avail, locked) = self.funds(user, asset);
        proof { self.lemma_holdings_le_total(user@, user@, asset@); }
        let i = self.find_or_create(user, asset);
        proof { self.lemma_row_value(i as int); }
        self.write_row(i, avail + amount, locked);
        Ok(avail + amount)
    }

    /// What `u` and, where distinct, `v` hold of `a` together is at most the
    /// total held of `a`.
    proof fn lemma_holdings_le_total(&self, u: Seq<char>, v: Seq<char>, a: Seq<char>)
        requires
            self.wf(),
        ensures
            self.available(u, a) + self.locked(u, a) <= self.total_of(a),
            u != v ==> self.available(u, a) + self.locked(u, a) + self.available(v, a) + self.locked(v, a) <= self.total_of(a),
    {
        let s = self.entries@;
        lemma_total_nonneg(s, a);
        if self.has_row(u, a) {
            let i = choose|i: int| 0 <= i < self.entries.len() && row_is(#[trigger] self.entries@[i], u, a);
            self.lemma_row_value(i);
            if self.has_row(v, a) && u != v {
                let j = choose|j: int| 0 <= j < self.entries.len() && row_is(#[trigger] self.entries@[j], v, a);
                self.lemma_row_value(j);
                lemma_shares_le_total(s, i, j, a);
            } else {
                lemma_shares_le_total(s, i, i, a);
            }
        } else if self.has_row(v, a) {
            let j = choose|j: int| 0 <= j < self.entries.len() && row_is(#[trigger] self.entries@[j], v, a);
            self.lemma_row_value(j);
            lemma_shares_le_total(s, j, j, a);
        }
    }

    /// The total held of `asset`, over all users.
    pub fn supply(&self, asset: &String) -> (r: u64)
        requires
            self.wf(),
        ensures
            r == self.total_of(asset@),
    {
        let mut sum: u64 = 0;
        let mut i: usize = 0;
        while i < self.entries.len()
            invariant
                i <= self.entries.len(),
                self.wf(),
                sum == asset_total(self.entries@.subrange(0, i as int), asset@),
            decreases self.entries.len() - i,
        {
            proof { lemma_total_prefix(self.entries@, i as int, asset@); }
            if self.entries[i].asset == *asset {
                sum = sum + self.entries[i].available + self.entries[i].locked;
            }
            i = i + 1;
        }
        proof { assert(self.entries@.subrange(0, self.entries@.len() as int) =~= self.entries@); }
        sum
    }

    /// Index of the row of (`user`, `asset`), if there is one.
    fn find(&self, user: &String, asset: &String) -> (r: Option<usize>)
        requires
            self.wf(),
        ensures
            match r {
                Some(i) => i < self.entries.len() && row_is(self.entries@[i as int], user@, asset@),
                None => !self.has_row(user@, asset@),
            },
    {
        let mut i: usize = 0;
        while i < self.entries.len()
            invariant
                i <= self.entries.len(),
                forall|j: int| 0 <= j < i ==> !row_is(#[trigger] self.entries@[j], user@, asset@),
            decreases self.entries.len() - i,
        {
            if self.entries[i].user_id == *user && self.entries[i].asset == *asset {
                return Some(i);
            }
            i = i + 1;
        }
        None
    }

    /// Puts new values into row `i`, which keeps its key.
#[verifier::rlimit(40)]
    fn write_row(&mut self, i: usize, available: u64, locked: u64)
        requires
            old(self).wf(),
            i < old(self).entries.len(),
            available + locked <= u64::MAX,
            old(self).total_of(old(self).entries@[i as int].asset@) - share(old(self).entries@[i as int], old(self).entries@[i as int].asset@)
                + available + locked <= u64::MAX,
        ensures
            final(self).wf(),
            final(self).balance_of(old(self).entries@[i as int].user_id@, old(self).entries@[i as int].asset@)
                == (Funds { available: available as nat, locked: locked as nat }),
            final(self).same_except(old(self), old(self).entries@[i as int].user_id@, old(self).entries@[i as int].asset@),
            forall|a: Seq<char>| #[trigger] final(self).total_of(a) == old(self).total_of(a)
                - share(old(self).entries@[i as int], a) + (if a == old(self).entries@[i as int].asset@ { available + locked } else { 0 }),
    {
        let ghost pre = *self;
        let row = self.entries.remove(i);
        let updated = UserBalance { user_id: row.user_id, asset: row.asset, available, locked };
        self.entries.insert(i, updated);
        let ghost u = pre.entries@[i as int].user_id@;
        let ghost a = pre.entries@[i as int].asset@;
        assert(self.entries@ =~= pre.entries@.update(i as int, updated));
        proof {
            assert forall|a2: Seq<char>| #[trigger] self.total_of(a2) == pre.total_of(a2)
                - share(pre.entries@[i as int], a2) + (if a2 == a { available + locked } else { 0 }) by {
                lemma_total_update(pre.entries@, i as int, updated, a2);
            }
            assert forall|a2: Seq<char>| #[trigger] asset_total(self.entries@, a2) <= u64::MAX by {
                assert(self.total_of(a2) == pre.total_of(a2)
                    - share(pre.entries@[i as int], a2) + (if a2 == a { available + locked } else { 0 }));
                assert(asset_total(pre.entries@, a2) <= u64::MAX);
                if a2 != a {
                    assert(share(pre.entries@[i as int], a2) == 0);
                }
            }
            assert(self.wf());
            self.lemma_row_value(i as int);
            assert forall|u2: Seq<char>, a2: Seq<char>| !(u2 == u && a2 == a) implies
                #[trigger] self.balance_of(u2, a2) == pre.balance_of(u2, a2) by {
                if pre.has_row(u2, a2) {
                    let j = choose|j: int| 0 <= j < pre.entries.len() && row_is(#[trigger] pre.entries@[j], u2, a2);
                    assert(j != i);
                    assert(row_is(self.entries@[j], u2, a2));
                    pre.lemma_row_value(j);
                    self.lemma_row_value(j);
                } else {
                    assert forall|j: int| 0 <= j < self.entries.len() implies !row_is(#[trigger] self.entries@[j], u2, a2) by {
                        if j != i {
                            assert(!row_is(pre.entries@[j], u2, a2));
                        }
                    }
                }
            }
        }
    }

    /// Index of the row of (`user`, `asset`), which is created with zeros if missing.
#[verifier::rlimit(40)]
    fn find_or_create(&mut self, user: &String, asset: &String) -> (r: usize)
        requires
            old(self).wf(),
        ensures
            final(self).wf(),
            r < final(self).entries.len(),
            row_is(final(self).entries@[r as int], user@, asset@),
            forall|u2: Seq<char>, a2: Seq<char>| #[trigger] final(self).balance_of(u2, a2) == old(self).balance_of(u2, a2),
            forall|a2: Seq<char>| #[trigger] final(self).total_of(a2) == old(self).total_of(a2),
    {
        match self.find(user, asset) {
            Some(i) => i,
            None => {
                let ghost pre = *self;
                let row = UserBalance { user_id: user.clone(), asset: asset.clone(), available: 0, locked: 0 };
                self.entries.push(row);
                let n = self.entries.len() - 1;
                assert(self.entries@ =~= pre.entries@.push(row));
                proof {
                    assert forall|a2: Seq<char>| #[trigger] self.total_of(a2) == pre.total_of(a2) by {
                        assert(self.entries@.drop_last() =~= pre.entries@);
                    }
                    assert forall|a2: Seq<char>| #[trigger] asset_total(self.entries@, a2) <= u64::MAX by {
                        assert(self.total_of(a2) == pre.total_of(a2));
                        assert(asset_total(pre.entries@, a2) <= u64::MAX);
                    }
                    assert(self.wf());
                    assert forall|u2: Seq<char>, a2: Seq<char>| #[trigger] self.balance_of(u2, a2) == pre.balance_of(u2, a2) by {
                        if u2 == user@ && a2 == asset@ {
                            self.lemma_row_value(n as int);
                        } else if pre.has_row(u2, a2) {
                            let j = choose|j: int| 0 <= j < pre.entries.len() && row_is(#[trigger] pre.entries@[j], u2, a2);
                            assert(row_is(self.entries@[j], u2, a2));
                            pre.lemma_row_value(j);
                            self.lemma_row_value(j);
                        } else {
                            assert forall|j: int| 0 <= j < self.entries.len() implies !row_is(#[trigger] self.entries@[j], u2, a2) by {
                                if j < pre.entries.len() {
                                    assert(!row_is(pre.entries@[j], u2, a2));
                                }
                            }
                        }
                    }
                }
                n
            }
        }
    }
}

} // verus!
