use vstd::prelude::*;

verus! {

/// Largest total, over all coins of one side of a transaction, for which the
/// fee arithmetic is carried out exactly in 128-bit integers.
pub const MAX_TOTAL: i128 = 0x1000_0000_0000_0000;

/// An amount of one denomination.
#[derive(Debug, Clone, PartialEq, Eq)]
pub struct Coin {
    pub denom: String,
    pub amount: i128,
}

/// The coins held, sent or received by one address.
#[derive(Debug, Clone, PartialEq, Eq)]
pub struct Balance {
    pub address: String,
    pub coins: Vec<Coin>,
}

/// A rate in `[0, 1]`, held exactly as `numerator / denominator`.
#[derive(Debug, Clone, Copy, PartialEq, Eq)]
pub struct Rate {
    pub numerator: u64,
    pub denominator: u64,
}

/// What the rules of one denomination are.
#[derive(Debug, Clone, PartialEq, Eq)]
pub struct DenomDefinition {
    pub denom: String,
    pub issuer: String,
    pub burn_rate: Rate,
    pub commission_rate: Rate,
}

/// A batched transfer: the inputs are debits requested from senders, the
/// outputs are credits requested for recipients.
#[derive(Debug, Clone, PartialEq, Eq)]
pub struct MultiSend {
    pub inputs: Vec<Balance>,
    pub outputs: Vec<Balance>,
}

/// The burn and commission shares that one sender pays on one denomination.
#[derive(Debug, Clone, PartialEq, Eq)]
pub struct FeeShare {
    pub address: String,
    pub denom: String,
    pub burn: i128,
    pub commission: i128,
}

/// Why a transaction is rejected.
#[derive(Debug, Clone, PartialEq, Eq)]
pub enum Error {
    AmountMismatch(String),
    AddressNotFound(String),
    InsufficientBalance(String, String),
    UnknownDenom(String),
}

/// The mathematical value of an [`Error`].
pub ghost enum Rejection {
    AmountMismatch(Seq<char>),
    AddressNotFound(Seq<char>),
    InsufficientBalance(Seq<char>, Seq<char>),
    UnknownDenom(Seq<char>),
}

impl View for Error {
    type V = Rejection;

    open spec fn view(&self) -> Rejection {
        match self {
            Error::AmountMismatch(d) => Rejection::AmountMismatch(d@),
            Error::AddressNotFound(a) => Rejection::AddressNotFound(a@),
            Error::InsufficientBalance(a, d) => Rejection::InsufficientBalance(a@, d@),
            Error::UnknownDenom(d) => Rejection::UnknownDenom(d@),
        }
    }
}

impl Rate {
    pub open spec fn wf(self) -> bool {
        0 < self.denominator && self.numerator <= self.denominator
    }

    /// Builds the rate `numerator / denominator`.
    pub fn new(numerator: u64, denominator: u64) -> (r: Rate)
        requires
            0 < denominator,
            numerator <= denominator,
        ensures
            r.numerator == numerator,
            r.denominator == denominator,
            r.wf(),
    {
        Rate { numerator, denominator }
    }
}

/// One amount of one denomination at one address: `(address, denom, amount)`.
pub type Leg = (Seq<char>, Seq<char>, int);

/// One coin of one balance, with the balance's address beside it.
pub struct Transfer {
    pub address: String,
    pub denom: String,
    pub amount: i128,
}

impl View for Transfer {
    type V = Leg;

    open spec fn view(&self) -> Leg {
        (self.address@, self.denom@, self.amount as int)
    }
}

pub open spec fn views(ts: Seq<Transfer>) -> Seq<Leg> {
    ts.map_values(|t: Transfer| t@)
}

pub open spec fn has_denom(cs: Seq<Coin>, d: Seq<char>) -> bool {
    exists|m: int| 0 <= m < cs.len() && #[trigger] cs[m].denom@ == d
}

/// Some balance at address `a` has a coin of denomination `d`.
pub open spec fn has_coin(bs: Seq<Balance>, a: Seq<char>, d: Seq<char>) -> bool {
    exists|k: int| 0 <= k < bs.len() && #[trigger] bs[k].address@ == a && has_denom(bs[k].coins@, d)
}

pub open spec fn coin_leg(address: Seq<char>, c: Coin) -> Leg {
    (address, c.denom@, c.amount as int)
}

pub open spec fn coin_legs(address: Seq<char>, coins: Seq<Coin>) -> Seq<Leg> {
    coins.map_values(|c: Coin| coin_leg(address, c))
}

/// Every coin of a sequence of balances, in order, as one flat sequence.
pub open spec fn legs(bs: Seq<Balance>) -> Seq<Leg>
    decreases bs.len(),
{
    if bs.len() == 0 {
        Seq::empty()
    } else {
        legs(bs.drop_last()) + coin_legs(bs.last().address@, bs.last().coins@)
    }
}

/// Which `(address, denom)` pairs a sum takes in.
pub type Selector = spec_fn(Seq<char>, Seq<char>) -> bool;

/// The sum of the amounts of the legs that `keep` selects.
pub open spec fn sum_if(ls: Seq<Leg>, keep: Selector) -> int
    decreases ls.len(),
{
    if ls.len() == 0 {
        0
    } else {
        sum_if(ls.drop_last(), keep) + if keep(ls.last().0, ls.last().1) {
            ls.last().2
        } else {
            0
        }
    }
}

pub open spec fn of_denom(d: Seq<char>) -> Selector {
    |a: Seq<char>, e: Seq<char>| e == d
}

pub open spec fn of_pair(a: Seq<char>, d: Seq<char>) -> Selector {
    |b: Seq<char>, e: Seq<char>| b == a && e == d
}

pub open spec fn of_denom_not_from(d: Seq<char>, issuer: Seq<char>) -> Selector {
    |a: Seq<char>, e: Seq<char>| e == d && a != issuer
}

pub open spec fn any_leg() -> Selector {
    |a: Seq<char>, e: Seq<char>| true
}

/// The sum of all amounts of denomination `d`.
pub open spec fn total(ls: Seq<Leg>, d: Seq<char>) -> int {
    sum_if(ls, of_denom(d))
}

/// The sum of all amounts of denomination `d` at address `a`.
pub open spec fn held(ls: Seq<Leg>, a: Seq<char>, d: Seq<char>) -> int {
    sum_if(ls, of_pair(a, d))
}

/// The sum of all amounts of denomination `d` at addresses other than `issuer`.
pub open spec fn non_issuer_total(ls: Seq<Leg>, d: Seq<char>, issuer: Seq<char>) -> int {
    sum_if(ls, of_denom_not_from(d, issuer))
}

pub open spec fn has_pair(ls: Seq<Leg>, a: Seq<char>, d: Seq<char>) -> bool {
    exists|i: int| 0 <= i < ls.len() && #[trigger] ls[i].0 == a && ls[i].1 == d
}

/// Amounts of a transaction side are non-negative and their sum stays within
/// [`MAX_TOTAL`].
///
/// The bound is on the whole side, across denominations, by choice: one
/// bound then serves every partial sum that the checks, the fee arithmetic and
/// the projection form, whatever their selection of legs. It refuses sides
/// whose denominations each stay below the bound but together exceed it.
pub open spec fn amounts_in_range(ls: Seq<Leg>) -> bool {
    &&& forall|i: int| 0 <= i < ls.len() ==> 0 <= #[trigger] ls[i].2
    &&& sum_if(ls, any_leg()) <= MAX_TOTAL
}

/// Within one balance no denomination occurs twice.
pub open spec fn denoms_distinct(cs: Seq<Coin>) -> bool {
    forall|m: int, n: int|
        0 <= m < n < cs.len() ==> #[trigger] cs[m].denom@ != #[trigger] cs[n].denom@
}

/// No address occurs twice, and within each balance no denomination occurs twice.
pub open spec fn grouped(bs: Seq<Balance>) -> bool {
    &&& forall|i: int, j: int|
        0 <= i < j < bs.len() ==> #[trigger] bs[i].address@ != #[trigger] bs[j].address@
    &&& forall|i: int| 0 <= i < bs.len() ==> denoms_distinct(#[trigger] bs[i].coins@)
}

/// A grouped set of changes without zero amounts and without empty balances.
pub open spec fn pruned(bs: Seq<Balance>) -> bool {
    &&& grouped(bs)
    &&& forall|i: int| 0 <= i < bs.len() ==> #[trigger] bs[i].coins@.len() > 0
    &&& forall|i: int, m: int|
        0 <= i < bs.len() && 0 <= m < bs[i].coins@.len() ==> #[trigger] bs[i].coins@[m].amount
            != 0
}

} // verus!
