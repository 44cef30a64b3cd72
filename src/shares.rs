use vstd::prelude::*;

verus! {

/// Identity of an account or a contract: the kind and the 32-byte hash, as two halves.
#[derive(Clone, Copy, Debug, PartialEq, Eq, Structural)]
pub struct Address {
    pub is_contract: bool,
    pub hash_hi: u128,
    pub hash_lo: u128,
}

/// One holder's share balance.
#[derive(Clone, Copy, Debug)]
pub struct ShareEntry {
    pub holder: Address,
    pub amount: u128,
}

/// Sum of the amounts that the entries give to `who`.
pub open spec fn balance_in(s: Seq<ShareEntry>, who: Address) -> nat
    decreases s.len(),
{
    if s.len() == 0 {
        0
    } else {
        balance_in(s.drop_last(), who) + if s.last().holder == who { s.last().amount as nat } else { 0 }
    }
}

/// Sum of all amounts.
pub open spec fn sum_of(s: Seq<ShareEntry>) -> nat
    decreases s.len(),
{
    if s.len() == 0 {
        0
    } else {
        sum_of(s.drop_last()) + s.last().amount as nat
    }
}

/// No holder has two entries.
pub open spec fn holders_unique(s: Seq<ShareEntry>) -> bool {
    forall|i: int, j: int| 0 <= i < j < s.len() ==> s[i].holder != s[j].holder
}

proof fn lemma_balance_le_sum(s: Seq<ShareEntry>, who: Address)
    ensures
        balance_in(s, who) <= sum_of(s),
    decreases s.len(),
{
    if s.len() > 0 {
        lemma_balance_le_sum(s.drop_last(), who);
    }
}

proof fn lemma_absent_balance(s: Seq<ShareEntry>, who: Address)
    requires
        forall|i: int| 0 <= i < s.len() ==> s[i].holder != who,
    ensures
        balance_in(s, who) == 0,
    decreases s.len(),
{
    if s.len() > 0 {
        lemma_absent_balance(s.drop_last(), who);
    }
}

proof fn lemma_unique_balance(s: Seq<ShareEntry>, i: int)
    requires
        holders_unique(s),
        0 <= i < s.len(),
    ensures
        balance_in(s, s[i].holder) == s[i].amount,
    decreases s.len(),
{
    let who = s[i].holder;
    if i == s.len() - 1 {
        lemma_absent_balance(s.drop_last(), who);
    } else {
        lemma_unique_balance(s.drop_last(), i);
    }
}

proof fn lemma_update(s: Seq<ShareEntry>, i: int, e: ShareEntry, who: Address)
    requires
        0 <= i < s.len(),
    ensures
        balance_in(s.update(i, e), who) + (if s[i].holder == who { s[i].amount as nat } else { 0 })
            == balance_in(s, who) + (if e.holder == who { e.amount as nat } else { 0 }),
        sum_of(s.update(i, e)) + s[i].amount == sum_of(s) + e.amount,
    decreases s.len(),
{
    let t = s.update(i, e);
    if i < s.len() - 1 {
        assert(t.drop_last() =~= s.drop_last().update(i, e));
        lemma_update(s.drop_last(), i, e, who);
    } else {
        assert(t.drop_last() =~= s.drop_last());
    }
}

/// Share balances of all holders. Holders with no entry hold nothing.
#[derive(Clone)]
pub struct ShareLedger {
    entries: Vec<ShareEntry>,
}

impl ShareLedger {
    /// Balance of each address.
    pub closed spec fn balances(&self) -> Map<Address, nat> {
        Map::new(|w: Address| true, |w: Address| balance_in(self.entries@, w))
    }

    /// Sum of all balances.
    pub closed spec fn total(&self) -> nat {
        sum_of(self.entries@)
    }

    pub closed spec fn wf(&self) -> bool {
        holders_unique(self.entries@)
    }

    /// The entries, one per holder.
    pub closed spec fn entries(&self) -> Seq<ShareEntry> {
        self.entries@
    }

    /// Balances and total are sums over the entries, and each holder has one entry.
    pub proof fn lemma_sums(&self)
        requires
            self.wf(),
        ensures
            holders_unique(self.entries()),
            self.total() == sum_of(self.entries()),
            forall|w: Address| #[trigger] self.balances()[w] == balance_in(self.entries(), w),
    {
    }

    /// Every balance is at most the total.
    pub proof fn lemma_balance_le_total(&self, who: Address)
        ensures
            self.balances()[who] <= self.total(),
    {
        lemma_balance_le_sum(self.entries@, who);
    }

    pub fn new() -> (r: ShareLedger)
        ensures
            r.wf(),
            r.total() == 0,
            r.balances() == Map::new(|w: Address| true, |w: Address| 0nat),
    {
        let r = ShareLedger { entries: Vec::new() };
        assert(r.balances() =~= Map::new(|w: Address| true, |w: Address| 0nat));
        r
    }

    fn find(&self, who: Address) -> (r: Option<usize>)
        ensures
            match r {
                Some(i) => i < self.entries@.len() && self.entries@[i as int].holder == who,
                None => forall|j: int| 0 <= j < self.entries@.len() ==> self.entries@[j].holder != who,
            },
    {
        let mut i: usize = 0;
        while i < self.entries.len()
            invariant
                i <= self.entries@.len(),
                forall|j: int| 0 <= j < i ==> self.entries@[j].holder != who,
            decreases self.entries@.len() - i,
        {
            if self.entries[i].holder == who {
                return Some(i);
            }
            i = i + 1;
        }
        None
    }

    pub fn balance_of(&self, who: Address) -> (r: u128)
        requires
            self.wf(),
        ensures
            r == self.balances()[who],
    {
        match self.find(who) {
            Some(i) => {
                proof {
                    lemma_unique_balance(self.entries@, i as int);
                }
                self.entries[i].amount
            },
            None => {
                proof {
                    lemma_absent_balance(self.entries@, who);
                }
                0
            },
        }
    }

    /// Adds `amount` to the balance of `who`.
    pub fn credit(&mut self, who: Address, amount: u128)
        requires
            old(self).wf(),
            old(self).total() + amount <= u128::MAX,
        ensures
            final(self).wf(),
            final(self).total() == old(self).total() + amount,
            final(self).balances() == old(self).balances().insert(who, (old(self).balances()[who] + amount) as nat),
    {
        let ghost s0 = self.entries@;
        match self.find(who) {
            Some(i) => {
                let cur = self.entries[i].amount;
                proof {
                    lemma_unique_balance(s0, i as int);
                    lemma_balance_le_sum(s0, who);
                }
                let e = ShareEntry { holder: who, amount: cur + amount };
                self.entries.set(i, e);
                proof {
                    lemma_update(s0, i as int, e, who);
                    assert forall|w: Address| #[trigger] balance_in(self.entries@, w)
                        == old(self).balances().insert(who, (old(self).balances()[who] + amount) as nat)[w] by {
                        lemma_update(s0, i as int, e, w);
                    }
                    assert(self.balances() =~= old(self).balances().insert(who, (old(self).balances()[who] + amount) as nat));
                }
            },
            None => {
                proof {
                    lemma_absent_balance(s0, who);
                }
                self.entries.push(ShareEntry { holder: who, amount });
                proof {
                    assert(self.entries@.drop_last() =~= s0);
                    assert(self.balances() =~= old(self).balances().insert(who, (old(self).balances()[who] + amount) as nat));
                }
            },
        }
    }

    /// Takes `amount` from the balance of `who`.
    pub fn debit(&mut self, who: Address, amount: u128)
        requires
            old(self).wf(),
            amount <= old(self).balances()[who],
        ensures
            final(self).wf(),
            final(self).total() + amount == old(self).total(),
            final(self).balances() == old(self).balances().insert(who, (old(self).balances()[who] - amount) as nat),
    {
        let ghost s0 = self.entries@;
        match self.find(who) {
            Some(i) => {
                let cur = self.entries[i].amount;
                proof {
                    lemma_unique_balance(s0, i as int);
                }
                let e = ShareEntry { holder: who, amount: cur - amount };
                self.entries.set(i, e);
                proof {
                    lemma_update(s0, i as int, e, who);
                    assert forall|w: Address| #[trigger] balance_in(self.entries@, w)
                        == old(self).balances().insert(who, (old(self).balances()[who] - amount) as nat)[w] by {
                        lemma_update(s0, i as int, e, w);
                    }
                    assert(self.balances() =~= old(self).balances().insert(who, (old(self).balances()[who] - amount) as nat));
                }
            },
            None => {
                proof {
                    lemma_absent_balance(s0, who);
                    assert(self.balances() =~= old(self).balances().insert(who, (old(self).balances()[who] - amount) as nat));
                }
            },
        }
    }
}

} // verus!
