//! The cycles ledger, ICRC-1 and ICRC-2: what is sent to it and what its
//! replies mean.
//!
//! Three calls. `pull` moves cycles from a payer's account into this
//! canister's account under the payer's approval. `pay` moves cycles from
//! this canister's account to a principal. `fund_self` turns ledger cycles
//! into this canister's own cycles balance. Every amount is in cycles; the
//! ledger's transfer fee is paid by the account the cycles leave.

use vstd::prelude::*;

use crate::principal::Principal;
use crate::text::{join2, join3};

verus! {

/// An account at the ledger.
#[derive(Debug, PartialEq, Eq)]
pub struct Account {
    pub owner: Principal,
    pub subaccount: Option<Vec<u8>>,
}

/// The default account of a principal.
fn account(owner: &Principal) -> (r: Account)
    ensures
        default_account(r, owner@),
{
    Account { owner: owner.clone(), subaccount: None }
}

/// Whether an account is the default one of a principal.
pub open spec fn default_account(a: Account, owner: Seq<u8>) -> bool {
    a.owner@ == owner && a.subaccount is None
}

/// The arguments of icrc2_transfer_from.
#[derive(Debug, PartialEq, Eq)]
pub struct TransferFromArgs {
    pub to: Account,
    pub fee: Option<u128>,
    pub spender_subaccount: Option<Vec<u8>>,
    pub from: Account,
    pub memo: Option<Vec<u8>>,
    pub created_at_time: Option<u64>,
    pub amount: u128,
}

/// The arguments of icrc1_transfer.
#[derive(Debug, PartialEq, Eq)]
pub struct TransferArgs {
    pub to: Account,
    pub fee: Option<u128>,
    pub memo: Option<Vec<u8>>,
    pub from_subaccount: Option<Vec<u8>>,
    pub created_at_time: Option<u64>,
    pub amount: u128,
}

/// The arguments of withdraw.
#[derive(Debug, PartialEq, Eq)]
pub struct WithdrawArgs {
    pub to: Principal,
    pub from_subaccount: Option<Vec<u8>>,
    pub created_at_time: Option<u64>,
    pub amount: u128,
}

/// Whether arguments pull an amount from the account of `payer` into that of
/// `this` with the fee pinned, and say nothing else.
pub open spec fn pulls(
    a: TransferFromArgs,
    this: Seq<u8>,
    payer: Seq<u8>,
    amount: int,
    fee: u128,
) -> bool {
    &&& default_account(a.to, this)
    &&& default_account(a.from, payer)
    &&& a.fee == Some(fee)
    &&& a.amount == amount
    &&& a.spender_subaccount is None
    &&& a.memo is None
    &&& a.created_at_time is None
}

/// Whether arguments pay an amount to the account of `to` with the fee
/// pinned, and say nothing else.
pub open spec fn pays(a: TransferArgs, to: Seq<u8>, amount: int, fee: u128) -> bool {
    &&& default_account(a.to, to)
    &&& a.fee == Some(fee)
    &&& a.amount == amount
    &&& a.memo is None
    &&& a.from_subaccount is None
    &&& a.created_at_time is None
}

/// Whether arguments withdraw an amount to the canister `this`, and say
/// nothing else.
pub open spec fn withdraws(a: WithdrawArgs, this: Seq<u8>, amount: int) -> bool {
    &&& a.to@ == this
    &&& a.amount == amount
    &&& a.from_subaccount is None
    &&& a.created_at_time is None
}

/// Pull `amount` cycles from `payer` into the ledger account of `this`. The
/// payer must have approved at least amount plus the fee. The fee is pinned:
/// if the ledger's fee is no longer `fee` it refuses rather than charging
/// the payer something else.
pub fn pull(this: &Principal, payer: &Principal, amount: u128, fee: u128) -> (r: TransferFromArgs)
    ensures
        pulls(r, this@, payer@, amount as int, fee),
{
    TransferFromArgs {
        to: account(this),
        fee: Some(fee),
        spender_subaccount: None,
        from: account(payer),
        memo: None,
        created_at_time: None,
        amount,
    }
}

/// Pay `amount` cycles from this canister's ledger account to `to`. The
/// pinned `fee` comes out of this canister's account on top; a changed fee
/// makes the ledger refuse rather than debit more than was budgeted.
pub fn pay(to: &Principal, amount: u128, fee: u128) -> (r: TransferArgs)
    ensures
        pays(r, to@, amount as int, fee),
{
    TransferArgs {
        to: account(to),
        fee: Some(fee),
        memo: None,
        from_subaccount: None,
        created_at_time: None,
        amount,
    }
}

/// Move `amount` cycles from the ledger account of `this` into its own
/// cycles balance. `withdraw` has no fee field to pin, so the caller checks
/// the live fee against the pinned one first.
pub fn fund_self(this: &Principal, amount: u128) -> (r: WithdrawArgs)
    ensures
        withdraws(r, this@, amount as int),
{
    WithdrawArgs { to: this.clone(), from_subaccount: None, created_at_time: None, amount }
}

// --- replies ----------------------------------------------------------------------------

/// How a ledger call failed, and whether the cycles moved.
#[derive(Debug, PartialEq, Eq)]
pub enum Failure {
    /// The call was rejected: the ledger did not run it, or trapped. No
    /// transfer happened, so the caller's own bookkeeping can be undone.
    Rejected(String),
    /// The ledger ran and answered Err. No transfer happened.
    Refused(String),
    /// The ledger ran and answered something this code cannot decode. The
    /// transfer may well have happened. The caller must not undo its
    /// bookkeeping; it records the amount as unreconciled instead.
    Undecodable(String),
}

/// A failure by its contents.
#[verifier::ext_equal]
pub enum FailureState {
    Rejected(Seq<char>),
    Refused(Seq<char>),
    Undecodable(Seq<char>),
}

impl View for Failure {
    type V = FailureState;

    open spec fn view(&self) -> FailureState {
        match self {
            Failure::Rejected(m) => FailureState::Rejected(m@),
            Failure::Refused(m) => FailureState::Refused(m@),
            Failure::Undecodable(m) => FailureState::Undecodable(m@),
        }
    }
}

/// Whether it is certain that no cycles moved.
pub open spec fn nothing_moved_by(f: FailureState) -> bool {
    f !is Undecodable
}

/// What a failure is reported as.
pub open spec fn failure_text(f: FailureState) -> Seq<char> {
    match f {
        FailureState::Rejected(m) => m,
        FailureState::Refused(m) => m,
        FailureState::Undecodable(m) => m
            + "; the transfer may have gone through, so nothing was undone and the amount is recorded as unreconciled for the operator"@,
    }
}

impl Failure {
    /// True when it is certain no cycles moved.
    pub fn nothing_moved(&self) -> (r: bool)
        ensures
            r == nothing_moved_by(self@),
    {
        match self {
            Failure::Undecodable(_) => false,
            _ => true,
        }
    }

    /// What the failure is reported as.
    pub fn message(&self) -> (r: String)
        ensures
            r@ == failure_text(self@),
    {
        match self {
            Failure::Rejected(m) => m.clone(),
            Failure::Refused(m) => m.clone(),
            Failure::Undecodable(m) => join2(
                m.as_str(),
                "; the transfer may have gone through, so nothing was undone and the amount is recorded as unreconciled for the operator",
            ),
        }
    }
}

/// What came back from a call to the ledger.
pub enum Reply {
    /// The call was rejected; why.
    Rejected(String),
    /// The ledger answered with a number, its bytes from the lowest on.
    Number(Vec<u8>),
    /// The ledger answered Err; the error as it prints.
    Refused(String),
    /// The answer could not be decoded; why.
    Undecodable(String),
}

/// The number with these bytes, from the lowest on.
pub open spec fn number_from(bytes: Seq<u8>) -> nat
    decreases bytes.len(),
{
    if bytes.len() == 0 {
        0
    } else {
        bytes[0] as nat + 256 * number_from(bytes.drop_first())
    }
}

/// The lowest 16 bytes.
pub open spec fn low_bytes(bytes: Seq<u8>) -> Seq<u8> {
    if bytes.len() <= 16 {
        bytes
    } else {
        bytes.take(16)
    }
}

/// A number of `n` bytes is below this.
spec fn bytes_bound(n: nat) -> nat
    decreases n,
{
    if n == 0 {
        1
    } else {
        256 * bytes_bound((n - 1) as nat)
    }
}

/// The bound grows with the number of bytes.
proof fn lemma_bytes_bound(n: nat)
    requires
        n <= 16,
    ensures
        bytes_bound(n) <= u128::MAX + 1,
    decreases 16 - n,
{
    if n == 16 {
        reveal_with_fuel(bytes_bound, 17);
    } else {
        lemma_bytes_bound((n + 1) as nat);
    }
}

/// The low 128 bits of a number given by its bytes, from the lowest on.
pub fn nat_to_u128(bytes: &Vec<u8>) -> (r: u128)
    ensures
        r == number_from(low_bytes(bytes@)),
{
    let len: usize = if bytes.len() < 16 {
        bytes.len()
    } else {
        16
    };
    let ghost low = low_bytes(bytes@);
    let mut i: usize = len;
    let mut value: u128 = 0;
    assert(low.skip(len as int) =~= Seq::<u8>::empty());
    while i > 0
        invariant
            i <= len,
            len <= 16,
            len <= bytes@.len(),
            low == low_bytes(bytes@),
            low.len() == len,
            value == number_from(low.skip(i as int)),
            value < bytes_bound((len - i) as nat),
        decreases i,
    {
        proof {
            let rest = low.skip(i - 1);
            assert(rest.drop_first() =~= low.skip(i as int));
            assert(rest[0] == bytes@[i - 1]);
            lemma_bytes_bound((len - i + 1) as nat);
        }
        value = value * 256 + bytes[i - 1] as u128;
        i -= 1;
    }
    assert(low.skip(0) =~= low);
    value
}

/// What a reply to a call of `method` means.
pub open spec fn reply_means(method: Seq<char>, reply: Reply) -> Result<u128, FailureState> {
    match reply {
        Reply::Rejected(e) => Err(FailureState::Rejected(method + ": "@ + e@)),
        Reply::Number(bytes) => Ok(number_from(low_bytes(bytes@)) as u128),
        Reply::Refused(e) => Err(FailureState::Refused(method + ": ledger refused: "@ + e@)),
        Reply::Undecodable(e) => Err(
            FailureState::Undecodable(method + ": undecodable reply: "@ + e@),
        ),
    }
}

/// A result of a ledger call by its contents.
pub open spec fn answer(r: Result<u128, Failure>) -> Result<u128, FailureState> {
    match r {
        Ok(n) => Ok(n),
        Err(f) => Err(f@),
    }
}

/// Tell what a reply to a call of `method` means: the block it was done in,
/// or how it failed.
pub fn read_reply(method: &str, reply: &Reply) -> (r: Result<u128, Failure>)
    ensures
        answer(r) == reply_means(method@, *reply),
{
    match reply {
        Reply::Rejected(e) => Err(Failure::Rejected(join3(method, ": ", e.as_str()))),
        Reply::Number(bytes) => Ok(nat_to_u128(bytes)),
        Reply::Refused(e) => Err(
            Failure::Refused(join3(method, ": ledger refused: ", e.as_str())),
        ),
        Reply::Undecodable(e) => Err(
            Failure::Undecodable(join3(method, ": undecodable reply: ", e.as_str())),
        ),
    }
}

/// The ledger's transfer fee, from its reply to icrc1_fee.
pub fn fee(reply: &Reply) -> (r: Result<u128, Failure>)
    ensures
        answer(r) == reply_means("icrc1_fee"@, *reply),
{
    read_reply("icrc1_fee", reply)
}

/// The bytes of a number, from the lowest on.
pub open spec fn bytes_of(n: nat) -> Seq<u8>
    decreases n,
{
    if n == 0 {
        Seq::empty()
    } else {
        seq![(n % 256) as u8] + bytes_of(n / 256)
    }
}

/// A number reads back from its bytes, and is read whole where it has no
/// more than 16.
pub proof fn law_numbers_read_back(n: nat)
    ensures
        number_from(bytes_of(n)) == n,
        bytes_of(n).len() <= 16 ==> number_from(low_bytes(bytes_of(n))) == n,
    decreases n,
{
    if n > 0 {
        let b = bytes_of(n);
        law_numbers_read_back(n / 256);
        assert(b.drop_first() =~= bytes_of(n / 256));
        assert(b[0] == (n % 256) as u8);
        assert(n == n % 256 + 256 * (n / 256));
    }
}

/// A reply counts as paid only where the ledger gave a number; and it is
/// certain that nothing moved exactly where the call was rejected or the
/// ledger refused, not where its answer could not be read.
pub proof fn law_only_numbers_are_payments(method: Seq<char>, reply: Reply)
    ensures
        reply_means(method, reply) is Ok <==> reply is Number,
        reply_means(method, reply) matches Err(f) ==> (nothing_moved_by(f) <==> reply is Rejected
            || reply is Refused),
        reply matches Reply::Number(b) ==> reply_means(method, reply)->Ok_0 == number_from(
            low_bytes(b@),
        ) as u128,
{
}

/// A pull moves the amount from the payer's account to the canister's own,
/// a payout from there to the one paid, and a funding into the canister's
/// cycles; each at the pinned fee where it can be pinned.
pub proof fn law_transfers_move_between_accounts(
    pull: TransferFromArgs,
    pay: TransferArgs,
    fund: WithdrawArgs,
    this: Seq<u8>,
    other: Seq<u8>,
    amount: int,
    fee: u128,
)
    ensures
        pulls(pull, this, other, amount, fee) ==> pull.from.owner@ == other && pull.to.owner@ == this
            && pull.amount == amount && pull.fee == Some(fee) && pull.from.subaccount is None
            && pull.to.subaccount is None && pull.spender_subaccount is None,
        pays(pay, other, amount, fee) ==> pay.to.owner@ == other && pay.amount == amount && pay.fee
            == Some(fee) && pay.to.subaccount is None && pay.from_subaccount is None,
        withdraws(fund, this, amount) ==> fund.to@ == this && fund.amount == amount
            && fund.from_subaccount is None,
{
}

} // verus!
