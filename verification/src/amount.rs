//! Signed balance deltas constrained to the monetary domain range.

use vstd::prelude::*;
use crate::errors::ValidateContextError;

verus! {

/// The largest representable monetary value, in the smallest currency unit.
pub const MAX_MONEY: i64 = 2_100_000_000_000_000;

/// Whether a mathematical value lies in the valid amount domain.
pub open spec fn amount_in_range(v: int) -> bool {
    -(MAX_MONEY as int) <= v <= MAX_MONEY as int
}

/// A signed amount, in the smallest currency unit, whose value always lies in
/// `[-MAX_MONEY, MAX_MONEY]`. Negative values are allowed: a chain-relative
/// balance is a delta against the finalized tip. Arithmetic that would leave
/// the range fails with an amount-range error instead of wrapping.
#[derive(Clone, Copy, PartialEq, Eq, Structural, Debug)]
pub struct Amount {
    zatoshis: i64,
}

impl Amount {
    /// The mathematical value of the amount.
    pub closed spec fn spec_value(self) -> int {
        self.zatoshis as int
    }

    /// The amount lies in the valid domain range.
    pub open spec fn wf(self) -> bool {
        amount_in_range(self.spec_value())
    }

    /// The zero amount.
    pub fn zero() -> (r: Amount)
        ensures
            r.spec_value() == 0,
            r.wf(),
    {
        Amount { zatoshis: 0 }
    }

    /// Builds an amount, rejecting values outside the domain range.
    pub fn new(zatoshis: i64) -> (r: Result<Amount, ValidateContextError>)
        ensures
            amount_in_range(zatoshis as int) <==> r is Ok,
            r is Ok ==> r->Ok_0.wf() && r->Ok_0.spec_value() == zatoshis as int,
            r is Err ==> r->Err_0 == ValidateContextError::AddressBalanceOutOfRange,
    {
        if -MAX_MONEY <= zatoshis && zatoshis <= MAX_MONEY {
            Ok(Amount { zatoshis })
        } else {
            Err(ValidateContextError::AddressBalanceOutOfRange)
        }
    }

    /// The raw value.
    pub fn zatoshis(self) -> (r: i64)
        ensures
            r as int == self.spec_value(),
    {
        self.zatoshis
    }

    /// Adds two amounts; fails exactly when the sum leaves the domain range.
    pub fn checked_add(self, rhs: Amount) -> (r: Result<Amount, ValidateContextError>)
        requires
            self.wf(),
            rhs.wf(),
        ensures
            amount_in_range(self.spec_value() + rhs.spec_value()) ==> (r is Ok && r->Ok_0.wf()
                && r->Ok_0.spec_value() == self.spec_value() + rhs.spec_value()),
            !amount_in_range(self.spec_value() + rhs.spec_value()) ==> r == Err::<
                Amount,
                ValidateContextError,
            >(ValidateContextError::AddressBalanceOutOfRange),
    {
        let sum: i64 = self.zatoshis + rhs.zatoshis;
        Amount::new(sum)
    }

    /// Subtracts an amount; fails exactly when the difference leaves the
    /// domain range.
    pub fn checked_sub(self, rhs: Amount) -> (r: Result<Amount, ValidateContextError>)
        requires
            self.wf(),
            rhs.wf(),
        ensures
            amount_in_range(self.spec_value() - rhs.spec_value()) ==> (r is Ok && r->Ok_0.wf()
                && r->Ok_0.spec_value() == self.spec_value() - rhs.spec_value()),
            !amount_in_range(self.spec_value() - rhs.spec_value()) ==> r == Err::<
                Amount,
                ValidateContextError,
            >(ValidateContextError::AddressBalanceOutOfRange),
    {
        let diff: i64 = self.zatoshis - rhs.zatoshis;
        Amount::new(diff)
    }
}

} // verus!
