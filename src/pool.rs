use vstd::prelude::*;
use crate::error::Error;
use crate::math::{
    calculate_fee_portion, calculate_input_for_output, calculate_liquidity_to_mint, calculate_output_amount,
    calculate_price, capped, fee_portion, fits, input_amount, input_computable, lemma_input_keeps_product,
    lemma_output_keeps_product, liquidity_outcome, output_amount, output_computable, scaled_price,
};
use crate::wide::mul_div;
use crate::shares::{balance_in, holders_unique, sum_of, Address, ShareEntry, ShareLedger};

verus! {

/// Which of the pool's two assets a call is about.
#[derive(Clone, Copy, Debug, PartialEq, Eq, Structural)]
pub enum Side {
    A,
    B,
}

/// The pool as a mathematical value. `balances` is total: an address that never
/// deposited holds zero shares.
pub ghost struct PoolState {
    pub token_a: Address,
    pub token_b: Address,
    pub reserve_a: nat,
    pub reserve_b: nat,
    pub total_supply: nat,
    pub balances: Map<Address, nat>,
    pub fee_rate: nat,
    /// Fee income kept from inputs of the first asset, capped at the largest `u128`.
    pub fees_a: nat,
    /// Fee income kept from inputs of the second asset, capped at the largest `u128`.
    pub fees_b: nat,
}

impl PoolState {
    /// What holds of every pool between calls.
    pub open spec fn inv(self) -> bool {
        &&& self.token_a != self.token_b
        &&& self.fee_rate < 10000
        &&& fits(self.reserve_a as int)
        &&& fits(self.reserve_b as int)
        &&& fits(self.total_supply as int)
        &&& forall|w: Address| #[trigger] self.balances[w] <= self.total_supply
    }

    pub open spec fn side_of(self, token: Address) -> Option<Side> {
        if token == self.token_a {
            Some(Side::A)
        } else if token == self.token_b {
            Some(Side::B)
        } else {
            None
        }
    }

    /// Reserve of the input asset and of the output asset, for a trade that pays in on `side`.
    pub open spec fn reserves_for(self, side: Side) -> (nat, nat) {
        match side {
            Side::A => (self.reserve_a, self.reserve_b),
            Side::B => (self.reserve_b, self.reserve_a),
        }
    }

    /// The pool after `amount_in` is paid in on `side` and `amount_out` of the other
    /// asset is paid out; the fee kept from the input is counted on `side`.
    pub open spec fn swapped(self, side: Side, amount_in: nat, amount_out: nat) -> PoolState {
        let fee = fee_portion(amount_in as int, self.fee_rate as int);
        match side {
            Side::A => PoolState {
                reserve_a: self.reserve_a + amount_in,
                reserve_b: (self.reserve_b - amount_out) as nat,
                fees_a: capped(self.fees_a + fee),
                ..self
            },
            Side::B => PoolState {
                reserve_b: self.reserve_b + amount_in,
                reserve_a: (self.reserve_a - amount_out) as nat,
                fees_b: capped(self.fees_b + fee),
                ..self
            },
        }
    }

    /// Shares minted by a deposit, or why it is rejected.
    pub open spec fn add_outcome(self, amount_a: nat, amount_b: nat) -> Result<nat, Error> {
        if amount_a == 0 || amount_b == 0 {
            Err(Error::ZeroAmount)
        } else {
            match liquidity_outcome(amount_a as int, amount_b as int, self.reserve_a as int, self.reserve_b as int, self.total_supply as int) {
                Err(e) => Err(e),
                Ok(v) => if fits((self.reserve_a + amount_a) as int) && fits((self.reserve_b + amount_b) as int) && fits((self.total_supply + v) as int) {
                    Ok(v as nat)
                } else {
                    Err(Error::Overflow)
                },
            }
        }
    }

    /// The pool after `provider` deposits both amounts and is credited `minted` shares.
    pub open spec fn deposited(self, provider: Address, amount_a: nat, amount_b: nat, minted: nat) -> PoolState {
        PoolState {
            reserve_a: self.reserve_a + amount_a,
            reserve_b: self.reserve_b + amount_b,
            total_supply: self.total_supply + minted,
            balances: self.balances.insert(provider, self.balances[provider] + minted),
            ..self
        }
    }

    /// The part of `reserve` that `shares` of the outstanding shares redeem, rounded down.
    pub open spec fn redeemed(self, shares: nat, reserve: nat) -> nat {
        (shares * reserve / self.total_supply) as nat
    }

    /// Amounts paid out for burning `shares` of `provider`, or why it is rejected.
    pub open spec fn remove_outcome(self, provider: Address, shares: nat) -> Result<(nat, nat), Error> {
        if shares == 0 {
            Err(Error::ZeroLiquidity)
        } else if self.balances[provider] < shares {
            Err(Error::InsufficientLpBalance)
        } else {
            Ok((self.redeemed(shares, self.reserve_a), self.redeemed(shares, self.reserve_b)))
        }
    }

    /// The pool after `provider` burns `shares` and is paid both amounts.
    pub open spec fn withdrawn(self, provider: Address, shares: nat, amount_a: nat, amount_b: nat) -> PoolState {
        PoolState {
            reserve_a: (self.reserve_a - amount_a) as nat,
            reserve_b: (self.reserve_b - amount_b) as nat,
            total_supply: (self.total_supply - shares) as nat,
            balances: self.balances.insert(provider, (self.balances[provider] - shares) as nat),
            ..self
        }
    }

    /// Quoted output for paying `amount_in` of `token_in`.
    pub open spec fn quote_out(self, amount_in: nat, token_in: Address) -> Result<nat, Error> {
        match self.side_of(token_in) {
            None => Err(Error::InvalidInputToken),
            Some(side) => {
                let (r_in, r_out) = self.reserves_for(side);
                if output_computable(amount_in as int, r_in as int, r_out as int, self.fee_rate as int) {
                    Ok(output_amount(amount_in as int, r_in as int, r_out as int, self.fee_rate as int) as nat)
                } else {
                    Err(Error::Overflow)
                }
            },
        }
    }

    /// Quoted input for receiving `amount_out` when paying in `token_in`.
    pub open spec fn quote_in(self, amount_out: nat, token_in: Address) -> Result<nat, Error> {
        match self.side_of(token_in) {
            None => Err(Error::InvalidInputToken),
            Some(side) => {
                let (r_in, r_out) = self.reserves_for(side);
                if input_computable(amount_out as int, r_in as int, r_out as int, self.fee_rate as int) {
                    Ok(input_amount(amount_out as int, r_in as int, r_out as int, self.fee_rate as int) as nat)
                } else {
                    Err(Error::Overflow)
                }
            },
        }
    }

    /// Output of a fixed-input swap, or why it is rejected.
    pub open spec fn swap_in_outcome(self, amount_in: nat, token_in: Address, min_amount_out: nat) -> Result<nat, Error> {
        match self.quote_out(amount_in, token_in) {
            Err(e) => Err(e),
            Ok(out) => {
                let (r_in, r_out) = self.reserves_for(self.side_of(token_in)->Some_0);
                if out < min_amount_out {
                    Err(Error::OutputBelowMinimum)
                } else if !fits((r_in + amount_in) as int) {
                    Err(Error::Overflow)
                } else {
                    Ok(out)
                }
            },
        }
    }

    /// Input taken by a fixed-output swap, or why it is rejected. An output of the
    /// whole reserve or more can never be bought.
    pub open spec fn swap_out_outcome(self, amount_out: nat, token_in: Address, max_amount_in: nat) -> Result<nat, Error> {
        match self.quote_in(amount_out, token_in) {
            Err(e) => Err(e),
            Ok(needed) => {
                let (r_in, r_out) = self.reserves_for(self.side_of(token_in)->Some_0);
                if amount_out >= r_out || needed > max_amount_in {
                    Err(Error::InputExceedsMaximum)
                } else if !fits((r_in + needed) as int) {
                    Err(Error::Overflow)
                } else {
                    Ok(needed)
                }
            },
        }
    }

    /// Product of the two reserves.
    pub open spec fn product(self) -> nat {
        self.reserve_a * self.reserve_b
    }
}

/// A constant-product pool of two assets. Reserves cache the ledger's balances of
/// the pool; each operation updates them to what the ledger will hold once its
/// transfers are done, and `sync_reserves` overwrites them with what it does hold.
#[derive(Clone)]
pub struct AnchorePool {
    token_a: Address,
    token_b: Address,
    reserve_a: u128,
    reserve_b: u128,
    total_supply: u128,
    balances: ShareLedger,
    fee_rate: u128,
    accumulated_fees_a: u128,
    accumulated_fees_b: u128,
}

impl View for AnchorePool {
    type V = PoolState;

    closed spec fn view(&self) -> PoolState {
        PoolState {
            token_a: self.token_a,
            token_b: self.token_b,
            reserve_a: self.reserve_a as nat,
            reserve_b: self.reserve_b as nat,
            total_supply: self.total_supply as nat,
            balances: self.balances.balances(),
            fee_rate: self.fee_rate as nat,
            fees_a: self.accumulated_fees_a as nat,
            fees_b: self.accumulated_fees_b as nat,
        }
    }
}

impl AnchorePool {
    pub closed spec fn wf(&self) -> bool {
        &&& self.balances.wf()
        &&& self.balances.total() == self.total_supply
        &&& self.token_a != self.token_b
        &&& self.fee_rate < 10000
    }

    /// A well-formed pool satisfies the invariant of its view.
    pub proof fn lemma_wf_inv(&self)
        requires
            self.wf(),
        ensures
            self@.inv(),
    {
        assert forall|w: Address| #[trigger] self@.balances[w] <= self@.total_supply by {
            self.balances.lemma_balance_le_total(w);
        }
    }

    /// The share entries behind `balances`, one per holder.
    pub closed spec fn share_entries(&self) -> Seq<ShareEntry> {
        self.balances.entries()
    }

    /// The outstanding shares are the sum of all holders' balances: each holder's
    /// balance is its one entry, and `total_supply` is the sum of the entries.
    pub proof fn lemma_shares_sum_to_total(&self)
        requires
            self.wf(),
        ensures
            holders_unique(self.share_entries()),
            sum_of(self.share_entries()) == self@.total_supply,
            forall|w: Address| #[trigger] self@.balances[w] == balance_in(self.share_entries(), w),
    {
        self.balances.lemma_sums();
    }

    /// A pool of two distinct assets with no reserves and no shares. The fee rate is
    /// in basis points and must be below 10000.
    pub fn init(token_a: Address, token_b: Address, fee_rate_bps: u128) -> (r: Result<AnchorePool, Error>)
        ensures
            token_a == token_b ==> r == Err::<AnchorePool, Error>(Error::IdenticalAssets),
            token_a != token_b && fee_rate_bps >= 10000 ==> r == Err::<AnchorePool, Error>(Error::InvalidFeeRate),
            token_a != token_b && fee_rate_bps < 10000 ==> r is Ok && r->Ok_0.wf() && r->Ok_0@ == (PoolState {
                token_a,
                token_b,
                reserve_a: 0,
                reserve_b: 0,
                total_supply: 0,
                balances: Map::new(|w: Address| true, |w: Address| 0nat),
                fee_rate: fee_rate_bps as nat,
                fees_a: 0,
                fees_b: 0,
            }),
    {
        if token_a == token_b {
            return Err(Error::IdenticalAssets);
        }
        if fee_rate_bps >= 10000 {
            return Err(Error::InvalidFeeRate);
        }
        let balances = ShareLedger::new();
        let pool = AnchorePool { token_a, token_b, reserve_a: 0, reserve_b: 0, total_supply: 0, balances, fee_rate: fee_rate_bps,
            accumulated_fees_a: 0, accumulated_fees_b: 0 };
        Ok(pool)
    }

    /// The side that `token` is on, if it is one of the pool's assets.
    pub fn side_of(&self, token: Address) -> (r: Option<Side>)
        ensures
            r == self@.side_of(token),
    {
        if token == self.token_a {
            Some(Side::A)
        } else if token == self.token_b {
            Some(Side::B)
        } else {
            None
        }
    }

    /// The asset on `side`.
    pub fn token_of(&self, side: Side) -> (r: Address)
        ensures
            r == (match side {
                Side::A => self@.token_a,
                Side::B => self@.token_b,
            }),
    {
        match side {
            Side::A => self.token_a,
            Side::B => self.token_b,
        }
    }

    fn reserves_for(&self, side: Side) -> (r: (u128, u128))
        ensures
            (r.0 as nat, r.1 as nat) == self@.reserves_for(side),
    {
        match side {
            Side::A => (self.reserve_a, self.reserve_b),
            Side::B => (self.reserve_b, self.reserve_a),
        }
    }

    /// Records a trade paying `amount_in` in on `side`: sets both reserves and counts the fee.
    fn settle_trade(&mut self, side: Side, amount_in: u128, reserve_in: u128, reserve_out: u128)
        requires
            old(self).fee_rate < 10000,
        ensures
            final(self).token_a == old(self).token_a,
            final(self).token_b == old(self).token_b,
            final(self).total_supply == old(self).total_supply,
            final(self).balances == old(self).balances,
            final(self).fee_rate == old(self).fee_rate,
            final(self)@.reserves_for(side) == (reserve_in as nat, reserve_out as nat),
            ({
                let fee = fee_portion(amount_in as int, old(self).fee_rate as int);
                match side {
                    Side::A => final(self)@.fees_a == capped(old(self)@.fees_a + fee) && final(self)@.fees_b == old(self)@.fees_b,
                    Side::B => final(self)@.fees_b == capped(old(self)@.fees_b + fee) && final(self)@.fees_a == old(self)@.fees_a,
                }
            }),
    {
        let fee = calculate_fee_portion(amount_in, self.fee_rate);
        match side {
            Side::A => {
                self.reserve_a = reserve_in;
                self.reserve_b = reserve_out;
                self.accumulated_fees_a = self.accumulated_fees_a.saturating_add(fee);
            },
            Side::B => {
                self.reserve_b = reserve_in;
                self.reserve_a = reserve_out;
                self.accumulated_fees_b = self.accumulated_fees_b.saturating_add(fee);
            },
        }
    }

    /// Fee income counted so far on the first and the second asset.
    pub fn get_accumulated_fees(&self) -> (r: (u128, u128))
        ensures
            r.0 == self@.fees_a,
            r.1 == self@.fees_b,
    {
        (self.accumulated_fees_a, self.accumulated_fees_b)
    }

    /// Deposits `amount_a` and `amount_b` for `provider` and credits the shares
    /// minted: the floor square root of the product for the first deposit, else the
    /// smaller of the two proportional amounts. Reserves grow by the amounts, which
    /// the caller then pulls into the pool on the ledger.
    pub fn add_liquidity(&mut self, provider: Address, amount_a: u128, amount_b: u128) -> (r: Result<u128, Error>)
        requires
            old(self).wf(),
        ensures
            final(self).wf(),
            match old(self)@.add_outcome(amount_a as nat, amount_b as nat) {
                Ok(v) => r == Ok::<u128, Error>(v as u128)
                    && final(self)@ == old(self)@.deposited(provider, amount_a as nat, amount_b as nat, v),
                Err(e) => r == Err::<u128, Error>(e) && final(self)@ == old(self)@,
            },
    {
        if amount_a == 0 || amount_b == 0 {
            return Err(Error::ZeroAmount);
        }
        let minted = match calculate_liquidity_to_mint(amount_a, amount_b, self.reserve_a, self.reserve_b, self.total_supply) {
            Ok(v) => v,
            Err(e) => return Err(e),
        };
        let new_a = match self.reserve_a.checked_add(amount_a) {
            Some(v) => v,
            None => return Err(Error::Overflow),
        };
        let new_b = match self.reserve_b.checked_add(amount_b) {
            Some(v) => v,
            None => return Err(Error::Overflow),
        };
        let new_total = match self.total_supply.checked_add(minted) {
            Some(v) => v,
            None => return Err(Error::Overflow),
        };
        self.balances.credit(provider, minted);
        self.total_supply = new_total;
        self.reserve_a = new_a;
        self.reserve_b = new_b;
        Ok(minted)
    }

    /// Burns `shares` of `provider` and returns the amounts of each asset they
    /// redeem, `shares * reserve / total_supply` rounded down. Shares are burned
    /// and reserves lowered before the caller pays the amounts out on the ledger.
    pub fn remove_liquidity(&mut self, provider: Address, shares: u128) -> (r: Result<(u128, u128), Error>)
        requires
            old(self).wf(),
        ensures
            final(self).wf(),
            match old(self)@.remove_outcome(provider, shares as nat) {
                Ok((a, b)) => r == Ok::<(u128, u128), Error>((a as u128, b as u128))
                    && final(self)@ == old(self)@.withdrawn(provider, shares as nat, a, b),
                Err(e) => r == Err::<(u128, u128), Error>(e) && final(self)@ == old(self)@,
            },
    {
        if shares == 0 {
            return Err(Error::ZeroLiquidity);
        }
        let held = self.balances.balance_of(provider);
        if held < shares {
            return Err(Error::InsufficientLpBalance);
        }
        proof {
            self.balances.lemma_balance_le_total(provider);
        }
        let total = self.total_supply;
        proof {
            lemma_share_of_reserve(shares as int, self.reserve_a as int, total as int);
            lemma_share_of_reserve(shares as int, self.reserve_b as int, total as int);
        }
        let amount_a = match mul_div(shares, self.reserve_a, total) {
            Some(v) => v,
            None => return Err(Error::Overflow),
        };
        let amount_b = match mul_div(shares, self.reserve_b, total) {
            Some(v) => v,
            None => return Err(Error::Overflow),
        };
        self.balances.debit(provider, shares);
        self.total_supply = total - shares;
        self.reserve_a = self.reserve_a - amount_a;
        self.reserve_b = self.reserve_b - amount_b;
        Ok((amount_a, amount_b))
    }

    /// Swaps exactly `amount_in` of `token_in` for the other asset, failing when the
    /// output is below `min_amount_out`. Reserves move by the two amounts; the caller
    /// then pulls the input and pays the returned output on the ledger.
    pub fn swap_exact_tokens_in(&mut self, amount_in: u128, token_in: Address, min_amount_out: u128) -> (r: Result<u128, Error>)
        requires
            old(self).wf(),
        ensures
            final(self).wf(),
            match old(self)@.swap_in_outcome(amount_in as nat, token_in, min_amount_out as nat) {
                Ok(out) => r == Ok::<u128, Error>(out as u128)
                    && final(self)@ == old(self)@.swapped(old(self)@.side_of(token_in)->Some_0, amount_in as nat, out),
                Err(e) => r == Err::<u128, Error>(e) && final(self)@ == old(self)@,
            },
            r is Ok ==> final(self)@.product() >= old(self)@.product(),
    {
        let side = match self.side_of(token_in) {
            Some(s) => s,
            None => return Err(Error::InvalidInputToken),
        };
        let (reserve_in, reserve_out) = self.reserves_for(side);
        let amount_out = match calculate_output_amount(amount_in, reserve_in, reserve_out, self.fee_rate) {
            Ok(v) => v,
            Err(e) => return Err(e),
        };
        if amount_out < min_amount_out {
            return Err(Error::OutputBelowMinimum);
        }
        let new_in = match reserve_in.checked_add(amount_in) {
            Some(v) => v,
            None => return Err(Error::Overflow),
        };
        proof {
            lemma_output_keeps_product(amount_in as int, reserve_in as int, reserve_out as int, self.fee_rate as int);
        }
        self.settle_trade(side, amount_in, new_in, reserve_out - amount_out);
        proof {
            lemma_product_by_side(old(self)@, self@, side);
        }
        Ok(amount_out)
    }

    /// Swaps the input asset `token_in` for exactly `amount_out` of the other asset,
    /// failing when the input required is above `max_amount_in` or the output would
    /// take the whole reserve. Reserves move by the two amounts; the caller then
    /// pulls the returned input and pays the output on the ledger.
    pub fn swap_tokens_for_exact_out(&mut self, amount_out: u128, token_in: Address, max_amount_in: u128) -> (r: Result<u128, Error>)
        requires
            old(self).wf(),
        ensures
            final(self).wf(),
            match old(self)@.swap_out_outcome(amount_out as nat, token_in, max_amount_in as nat) {
                Ok(needed) => r == Ok::<u128, Error>(needed as u128)
                    && final(self)@ == old(self)@.swapped(old(self)@.side_of(token_in)->Some_0, needed, amount_out as nat),
                Err(e) => r == Err::<u128, Error>(e) && final(self)@ == old(self)@,
            },
            r is Ok ==> final(self)@.product() >= old(self)@.product(),
    {
        let side = match self.side_of(token_in) {
            Some(s) => s,
            None => return Err(Error::InvalidInputToken),
        };
        let (reserve_in, reserve_out) = self.reserves_for(side);
        let amount_in = match calculate_input_for_output(amount_out, reserve_in, reserve_out, self.fee_rate) {
            Ok(v) => v,
            Err(e) => return Err(e),
        };
        if amount_out >= reserve_out || amount_in > max_amount_in {
            return Err(Error::InputExceedsMaximum);
        }
        let new_in = match reserve_in.checked_add(amount_in) {
            Some(v) => v,
            None => return Err(Error::Overflow),
        };
        proof {
            lemma_input_keeps_product(amount_out as int, reserve_in as int, reserve_out as int, self.fee_rate as int);
        }
        self.settle_trade(side, amount_in, new_in, reserve_out - amount_out);
        proof {
            lemma_product_by_side(old(self)@, self@, side);
        }
        Ok(amount_in)
    }

    /// Reserves of the first and the second asset.
    pub fn get_reserves(&self) -> (r: (u128, u128))
        ensures
            r.0 == self@.reserve_a,
            r.1 == self@.reserve_b,
    {
        (self.reserve_a, self.reserve_b)
    }

    /// Shares outstanding.
    pub fn get_lp_token_supply(&self) -> (r: u128)
        ensures
            r == self@.total_supply,
    {
        self.total_supply
    }

    /// Shares held by `address`.
    pub fn get_lp_balance(&self, address: Address) -> (r: u128)
        requires
            self.wf(),
        ensures
            r == self@.balances[address],
    {
        self.balances.balance_of(address)
    }

    /// Fee rate in basis points.
    pub fn get_fee_rate(&self) -> (r: u128)
        ensures
            r == self@.fee_rate,
    {
        self.fee_rate
    }

    /// Price of one unit of `token` in units of the other asset, scaled by 10^18;
    /// zero while either reserve is empty.
    pub fn get_price(&self, token: Address) -> (r: Result<u128, Error>)
        ensures
            match self@.side_of(token) {
                None => r == Err::<u128, Error>(Error::InvalidInputToken),
                Some(side) => {
                    let (this, other) = self@.reserves_for(side);
                    if fits(scaled_price(this as int, other as int)) {
                        r == Ok::<u128, Error>(scaled_price(this as int, other as int) as u128)
                    } else {
                        r == Err::<u128, Error>(Error::Overflow)
                    }
                },
            },
    {
        let side = match self.side_of(token) {
            Some(s) => s,
            None => return Err(Error::InvalidInputToken),
        };
        let (this, other) = self.reserves_for(side);
        calculate_price(this, other)
    }

    /// Output that `swap_exact_tokens_in` would give for `amount_in` of `token_in` now.
    pub fn get_amount_out(&self, amount_in: u128, token_in: Address) -> (r: Result<u128, Error>)
        requires
            self.wf(),
        ensures
            match self@.quote_out(amount_in as nat, token_in) {
                Ok(v) => r == Ok::<u128, Error>(v as u128) && fits(v as int),
                Err(e) => r == Err::<u128, Error>(e),
            },
    {
        let side = match self.side_of(token_in) {
            Some(s) => s,
            None => return Err(Error::InvalidInputToken),
        };
        let (reserve_in, reserve_out) = self.reserves_for(side);
        calculate_output_amount(amount_in, reserve_in, reserve_out, self.fee_rate)
    }

    /// Input that `swap_tokens_for_exact_out` would take for `amount_out` now, paying in
    /// `token_in`; the largest `u128` when the output would take the whole reserve.
    pub fn get_amount_in(&self, amount_out: u128, token_in: Address) -> (r: Result<u128, Error>)
        requires
            self.wf(),
        ensures
            match self@.quote_in(amount_out as nat, token_in) {
                Ok(v) => r == Ok::<u128, Error>(v as u128) && fits(v as int),
                Err(e) => r == Err::<u128, Error>(e),
            },
    {
        let side = match self.side_of(token_in) {
            Some(s) => s,
            None => return Err(Error::InvalidInputToken),
        };
        let (reserve_in, reserve_out) = self.reserves_for(side);
        calculate_input_for_output(amount_out, reserve_in, reserve_out, self.fee_rate)
    }

    /// Overwrites the cached reserves with the pool's balances as the ledger reports them.
    pub fn sync_reserves(&mut self, balance_a: u128, balance_b: u128)
        requires
            old(self).wf(),
        ensures
            final(self).wf(),
            final(self)@ == (PoolState { reserve_a: balance_a as nat, reserve_b: balance_b as nat, ..old(self)@ }),
    {
        self.reserve_a = balance_a;
        self.reserve_b = balance_b;
    }
}

/// Redeeming at most all shares pays at most the whole reserve.
proof fn lemma_share_of_reserve(shares: int, reserve: int, total: int)
    requires
        0 < shares <= total,
        reserve >= 0,
    ensures
        0 <= shares * reserve / total <= reserve,
{
    assert(shares * reserve <= total * reserve) by (nonlinear_arith)
        requires shares <= total, reserve >= 0;
    assert(shares * reserve / total <= total * reserve / total) by (nonlinear_arith)
        requires shares * reserve <= total * reserve, total > 0;
    assert(total * reserve / total == reserve) by (nonlinear_arith)
        requires total > 0;
    assert(shares * reserve / total >= 0) by (nonlinear_arith)
        requires shares > 0, reserve >= 0, total > 0;
}

proof fn lemma_product_by_side(before: PoolState, after: PoolState, side: Side)
    requires
        after.reserves_for(side).0 * after.reserves_for(side).1
            >= before.reserves_for(side).0 * before.reserves_for(side).1,
    ensures
        after.product() >= before.product(),
{
    assert(after.reserve_b * after.reserve_a == after.reserve_a * after.reserve_b) by (nonlinear_arith);
    assert(before.reserve_b * before.reserve_a == before.reserve_a * before.reserve_b) by (nonlinear_arith);
}

} // verus!
