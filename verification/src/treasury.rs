//! Money out and the settings of the tax: withdrawals of credits, collected
//! tax turned into the canister's own cycles, and config changes.
//!
//! The ledger's transfer fee is charged on top of the amount on every
//! transfer out of this canister's account, so every payout sends the amount
//! less the pinned fee and the account is debited exactly the amount.

use vstd::prelude::*;
use vstd::utf8::*;

use crate::harberger;
use crate::harberger::{
    params_of, record_tax, reduced, settled_record, with_config, with_tax, with_unreconciled,
    with_withdrawn, Config, ConfigState,
};
use crate::ledger;
use crate::ledger::{
    answer, failure_text, nothing_moved_by, pays, withdraws, Failure, FailureState, TransferArgs,
    WithdrawArgs,
};
use crate::maps::{as_nats, owed, values_in_order, views, with_owed};
use crate::market::{credits_one, landed, one_landed, only_credits_move, sent, with_credit};
use crate::order::{lemma_before_irreflexive, lemma_texts_listed, lists_texts, texts_in_order};
use crate::principal::{anonymous, principal_text, Principal};
use crate::record::RecordState;
use crate::registry::{
    admin_fault, caller_fault, check_admin, check_caller, commit_flat, good_record,
    lemma_record_sound, sound, with_record, with_store, Registry, RegistryState,
};
use crate::resolve::keyed_by_name;
use crate::running;
use crate::settings::SettingsState;
use crate::store;
use crate::store::{credit_error, Store, StoreState};
use crate::sums::{lemma_sum_take, lemma_total_remove, sum_of, total_of};
use crate::tax::{
    capped, law_settling_twice_takes_nothing, params_error, params_ok, settled, taken, Params,
};
use crate::text::{decimal, decimal_text, join3, join4, join5, lossy_text, texts};

verus! {

// --- withdraw ---------------------------------------------------------------------------

/// A withdrawal that is being paid out.
pub struct Withdrawal {
    caller: Principal,
    amount: u128,
    cfg: Config,
}

/// A withdrawal by its contents.
#[verifier::ext_equal]
pub struct WithdrawalState {
    pub caller: Seq<u8>,
    pub amount: u128,
    pub cfg: ConfigState,
}

impl View for Withdrawal {
    type V = WithdrawalState;

    closed spec fn view(&self) -> WithdrawalState {
        WithdrawalState { caller: self.caller@, amount: self.amount, cfg: self.cfg@ }
    }
}

/// Why a withdrawal is refused.
pub open spec fn withdraw_fault(s: StoreState, caller: Seq<u8>, amount: u128) -> Option<Seq<char>> {
    let fee = s.settings.config.fee;
    if caller_fault(caller) is Some {
        caller_fault(caller)
    } else if amount <= fee {
        Some("amount must exceed the ledger fee of "@ + decimal(fee as nat) + " cycles"@)
    } else if owed(s.credits, caller) < amount {
        Some(credit_error(owed(s.credits, caller), amount))
    } else {
        None
    }
}

/// The registry with an amount taken from what a principal is owed.
pub open spec fn with_debit(s: RegistryState, p: Seq<u8>, amount: u128) -> RegistryState {
    with_store(
        s,
        StoreState {
            credits: with_owed(s.store.credits, p, (owed(s.store.credits, p) - amount) as u128),
            ..s.store
        },
    )
}

/// The withdrawal that a caller starts.
pub open spec fn started_withdrawal(s: StoreState, caller: Seq<u8>, amount: u128) -> WithdrawalState {
    WithdrawalState { caller, amount, cfg: s.settings.config }
}

/// What is noted of a payout whose reply could not be decoded.
pub open spec fn pay_note(to: Seq<u8>, amount: u128, f: FailureState) -> Seq<char> {
    "pay "@ + decimal(amount as nat) + " to "@ + principal_text(to) + ": "@ + failure_text(f)
}

/// The registry after the answer to a payout. The credit is given back only
/// when the ledger certainly paid nothing; otherwise a retry would pay
/// twice.
pub open spec fn withdraw_done(
    s: RegistryState,
    w: WithdrawalState,
    reply: Result<u128, FailureState>,
) -> RegistryState {
    let back = landed(s);
    match reply {
        Ok(_) => back,
        Err(f) => if nothing_moved_by(f) {
            with_credit(back, w.caller, w.amount)
        } else {
            with_store(
                back,
                with_unreconciled(back.store, w.amount, pay_note(w.caller, w.amount, f)),
            )
        },
    }
}

impl Withdrawal {
    #[verifier::type_invariant]
    spec fn inv(self) -> bool {
        self.amount > self.cfg@.fee
    }

    /// What to pay, and at which ledger: the amount less the fee, which the
    /// ledger charges on top.
    pub fn payment(&self) -> (r: (Principal, TransferArgs))
        ensures
            r.0@ == self@.cfg.ledger,
            pays(r.1, self@.caller, self@.amount - self@.cfg.fee, self@.cfg.fee),
            r.1.amount + self@.cfg.fee == self@.amount,
    {
        proof {
            use_type_invariant(&*self);
        }
        (
            self.cfg.ledger.clone(),
            ledger::pay(&self.caller, self.amount - self.cfg.fee, self.cfg.fee),
        )
    }
}

/// A withdrawal's or a funding's result by its contents.
pub open spec fn block_or(r: Result<u128, String>) -> Result<u128, Seq<char>> {
    match r {
        Ok(block) => Ok(block),
        Err(e) => Err(e@),
    }
}

impl Registry {
    /// First half of moving `amount` of the caller's credit (sale proceeds,
    /// refunds) to the caller's cycles ledger account. The ledger fee comes
    /// out of it.
    pub fn withdraw_start(&mut self, caller: &Principal, amount: u128) -> (r: Result<
        Withdrawal,
        String,
    >)
        ensures
            ({
                let s = old(self)@;
                match withdraw_fault(s.store, caller@, amount) {
                    Some(e) => r is Err && r->Err_0@ == e && final(self)@ == s,
                    None => {
                        &&& r is Ok
                        &&& final(self)@ == sent(with_debit(s, caller@, amount))
                        &&& r->Ok_0@ == started_withdrawal(s.store, caller@, amount)
                    },
                }
            }),
            sound(old(self)@) ==> sound(final(self)@),
    {
        let cfg = harberger::config(&self.store);
        match check_caller(caller) {
            Err(e) => {
                return Err(e);
            },
            Ok(_) => {},
        }
        if amount <= cfg.fee {
            return Err(
                join3(
                    "amount must exceed the ledger fee of ",
                    decimal_text(cfg.fee).as_str(),
                    " cycles",
                ),
            );
        }
        match store::take_credit(&mut self.store, caller, amount) {
            Err(e) => {
                return Err(e);
            },
            Ok(_) => {},
        }
        self.in_flight = self.in_flight.saturating_add(1);
        Ok(Withdrawal { caller: caller.clone(), amount, cfg })
    }

    /// Second half of a withdrawal, with the ledger's answer. Returns the
    /// block it was paid in.
    pub fn withdraw_finish(&mut self, w: Withdrawal, reply: Result<u128, Failure>) -> (r: Result<
        u128,
        String,
    >)
        ensures
            final(self)@ == withdraw_done(old(self)@, w@, answer(reply)),
            block_or(r) == match answer(reply) {
                Ok(block) => Ok::<u128, Seq<char>>(block),
                Err(f) => Err::<u128, Seq<char>>(failure_text(f)),
            },
            sound(old(self)@) ==> sound(final(self)@),
    {
        let Withdrawal { caller, amount, cfg: _ } = w;
        self.in_flight = self.in_flight.saturating_sub(1);
        match reply {
            Ok(block) => Ok(block),
            Err(f) => {
                if f.nothing_moved() {
                    store::add_credit(&mut self.store, &caller, amount);
                } else {
                    let mut note = join4(
                        "pay ",
                        decimal_text(amount).as_str(),
                        " to ",
                        caller.to_text().as_str(),
                    );
                    note.append(": ");
                    note.append(f.message().as_str());
                    harberger::note_unreconciled(&mut self.store, amount, note.as_str());
                }
                Err(f.message())
            },
        }
    }
}

// --- treasury ---------------------------------------------------------------------------

/// What the treasury holds.
pub struct Treasury {
    /// Tax settled so far, cycles. Sits in this canister's ledger account
    /// alongside prepaid balances and credits, which it must never touch.
    pub collected: u128,
    pub withdrawn: u128,
    /// Cycles whose movement could not be confirmed from a ledger reply.
    pub unreconciled: u128,
    pub unreconciled_last: String,
}

/// Collected tax that was not withdrawn.
pub open spec fn available_tax(s: StoreState) -> u128 {
    reduced(s.settings.tax_collected, s.settings.tax_withdrawn)
}

/// Collected tax on its way into the canister's own cycles.
pub struct Funding {
    amount: u128,
    cfg: Config,
}

/// A funding by its contents.
#[verifier::ext_equal]
pub struct FundingState {
    pub amount: u128,
    pub cfg: ConfigState,
}

impl View for Funding {
    type V = FundingState;

    closed spec fn view(&self) -> FundingState {
        FundingState { amount: self.amount, cfg: self.cfg@ }
    }
}

/// Whether an amount of tax can be turned into cycles: more than the fee,
/// and no more than there is.
pub open spec fn fundable(s: StoreState, fee: u128, amount: u128) -> bool {
    fee < amount <= available_tax(s)
}

/// What is said of an amount of tax that cannot be turned into cycles.
pub open spec fn not_fundable(s: StoreState, fee: u128) -> Seq<char> {
    decimal(available_tax(s) as nat)
        + " cycles of tax available to withdraw; amount must exceed the ledger fee of "@ + decimal(
        fee as nat,
    )
}

/// Why tax cannot be turned into cycles.
pub open spec fn fund_fault(s: StoreState, caller: Seq<u8>, is_controller: bool, amount: u128) -> Option<
    Seq<char>,
> {
    let fee = s.settings.config.fee;
    if admin_fault(caller, is_controller) is Some {
        admin_fault(caller, is_controller)
    } else if !fundable(s, fee, amount) {
        Some(not_fundable(s, fee))
    } else {
        None
    }
}

/// The funding that a controller starts.
pub open spec fn started_funding(s: StoreState, amount: u128) -> FundingState {
    FundingState { amount, cfg: s.settings.config }
}

/// The registry with the amount of a funding noted as withdrawn.
pub open spec fn funding_noted(s: RegistryState, f: FundingState) -> RegistryState {
    with_store(
        s,
        with_withdrawn(s.store, capped(s.store.settings.tax_withdrawn + f.amount)),
    )
}

/// Say what tax is available.
fn available_text(store: &Store, fee: u128) -> (r: String)
    ensures
        r@ == not_fundable(store@, fee),
{
    let available: u128 = available(store);
    join3(
        decimal_text(available).as_str(),
        " cycles of tax available to withdraw; amount must exceed the ledger fee of ",
        decimal_text(fee).as_str(),
    )
}

/// Collected tax that was not withdrawn.
fn available(store: &Store) -> (r: u128)
    ensures
        r == available_tax(store@),
{
    harberger::tax_collected(store).saturating_sub(harberger::tax_withdrawn(store))
}

/// What is said when the ledger's fee is not the pinned one.
pub open spec fn fee_changed(live: u128, fee: u128) -> Seq<char> {
    "ledger fee is now "@ + decimal(live as nat) + ", config has "@ + decimal(fee as nat)
        + "; run set_harberger_config to refresh it"@
}

/// What the ledger's answer about its fee means for a funding: None where it
/// may go on.
pub open spec fn fee_fault(s: StoreState, f: FundingState, reply: Result<u128, FailureState>) -> Option<
    Seq<char>,
> {
    match reply {
        Err(e) => Some(failure_text(e)),
        Ok(live) => if live != f.cfg.fee {
            Some(fee_changed(live, f.cfg.fee))
        } else if !fundable(s, f.cfg.fee, f.amount) {
            Some(not_fundable(s, f.cfg.fee))
        } else {
            None
        },
    }
}

/// The registry after the answer to a funding.
pub open spec fn fund_done(s: RegistryState, f: FundingState, reply: Result<u128, FailureState>) -> RegistryState {
    let back = landed(s);
    match reply {
        Ok(_) => back,
        Err(e) => if nothing_moved_by(e) {
            with_store(
                back,
                with_withdrawn(back.store, reduced(back.store.settings.tax_withdrawn, f.amount)),
            )
        } else {
            with_store(
                back,
                with_unreconciled(
                    back.store,
                    f.amount,
                    "fund_self "@ + decimal(f.amount as nat) + ": "@ + failure_text(e),
                ),
            )
        },
    }
}

impl Funding {
    #[verifier::type_invariant]
    spec fn inv(self) -> bool {
        self.amount > self.cfg@.fee
    }

    /// The ledger to ask for its fee and to withdraw at.
    pub fn ledger(&self) -> (r: Principal)
        ensures
            r@ == self@.cfg.ledger,
    {
        self.cfg.ledger.clone()
    }

    /// What to withdraw: the amount less the fee, which the ledger charges
    /// on top.
    pub fn payment(&self, this: &Principal) -> (r: WithdrawArgs)
        ensures
            withdraws(r, this@, self@.amount - self@.cfg.fee),
            r.amount + self@.cfg.fee == self@.amount,
    {
        proof {
            use_type_invariant(&*self);
        }
        ledger::fund_self(this, self.amount - self.cfg.fee)
    }
}

impl Registry {
    /// The treasury's counters.
    pub fn treasury(&self) -> (r: Treasury)
        ensures
            r.collected == self@.store.settings.tax_collected,
            r.withdrawn == self@.store.settings.tax_withdrawn,
            r.unreconciled == self@.store.settings.unreconciled,
            r.unreconciled_last@ == lossy_text(self@.store.settings.unreconciled_last),
    {
        let (unreconciled, unreconciled_last) = harberger::unreconciled(&self.store);
        Treasury {
            collected: harberger::tax_collected(&self.store),
            withdrawn: harberger::tax_withdrawn(&self.store),
            unreconciled,
            unreconciled_last,
        }
    }

    /// First step of turning collected tax into the canister's own cycles.
    /// Controllers only. The ledger fee comes out of `amount`. The live fee
    /// is asked next, since a withdrawal cannot pin one.
    pub fn fund_self_start(&mut self, caller: &Principal, is_controller: bool, amount: u128) -> (r:
        Result<Funding, String>)
        ensures
            ({
                let s = old(self)@;
                match fund_fault(s.store, caller@, is_controller, amount) {
                    Some(e) => r is Err && r->Err_0@ == e && final(self)@ == s,
                    None => {
                        &&& r is Ok
                        &&& r->Ok_0@ == started_funding(s.store, amount)
                        &&& final(self)@ == sent(s)
                    },
                }
            }),
            sound(old(self)@) ==> sound(final(self)@),
    {
        match check_admin(caller, is_controller) {
            Err(e) => {
                return Err(e);
            },
            Ok(_) => {},
        }
        let cfg = harberger::config(&self.store);
        if amount <= cfg.fee || amount > available(&self.store) {
            return Err(available_text(&self.store, cfg.fee));
        }
        self.in_flight = self.in_flight.saturating_add(1);
        Ok(Funding { amount, cfg })
    }

    /// Second step, with the ledger's answer about its fee: a changed fee
    /// would come out of prepaid balances, and so would tax that another
    /// funding took meanwhile, so both are refused. Otherwise the amount is
    /// noted as withdrawn.
    pub fn fund_self_fee(&mut self, f: Funding, reply: Result<u128, Failure>) -> (r: Result<
        Funding,
        String,
    >)
        ensures
            match fee_fault(old(self)@.store, f@, answer(reply)) {
                Some(e) => r is Err && r->Err_0@ == e && final(self)@ == landed(old(self)@),
                None => {
                    &&& r is Ok
                    &&& r->Ok_0@ == f@
                    &&& final(self)@ == funding_noted(old(self)@, f@)
                },
            },
            sound(old(self)@) ==> sound(final(self)@),
    {
        proof {
            use_type_invariant(&f);
        }
        let fault = match &reply {
            Err(e) => Some(e.message()),
            Ok(live) => if *live != f.cfg.fee {
                Some(
                    join5(
                        "ledger fee is now ",
                        decimal_text(*live).as_str(),
                        ", config has ",
                        decimal_text(f.cfg.fee).as_str(),
                        "; run set_harberger_config to refresh it",
                    ),
                )
            } else if f.amount > available(&self.store) {
                Some(available_text(&self.store, f.cfg.fee))
            } else {
                None
            },
        };
        match fault {
            Some(e) => {
                self.in_flight = self.in_flight.saturating_sub(1);
                Err(e)
            },
            None => {
                harberger::note_tax_withdrawn(&mut self.store, f.amount);
                Ok(f)
            },
        }
    }

    /// Third step, with the ledger's answer to the withdrawal. Returns the
    /// block it was done in.
    pub fn fund_self_finish(&mut self, f: Funding, reply: Result<u128, Failure>) -> (r: Result<
        u128,
        String,
    >)
        ensures
            final(self)@ == fund_done(old(self)@, f@, answer(reply)),
            block_or(r) == match answer(reply) {
                Ok(block) => Ok::<u128, Seq<char>>(block),
                Err(e) => Err::<u128, Seq<char>>(failure_text(e)),
            },
            sound(old(self)@) ==> sound(final(self)@),
    {
        let Funding { amount, cfg: _ } = f;
        self.in_flight = self.in_flight.saturating_sub(1);
        match reply {
            Ok(block) => Ok(block),
            Err(e) => {
                if e.nothing_moved() {
                    harberger::undo_tax_withdrawn(&mut self.store, amount);
                } else {
                    let note = join4(
                        "fund_self ",
                        decimal_text(amount).as_str(),
                        ": ",
                        e.message().as_str(),
                    );
                    harberger::note_unreconciled(&mut self.store, amount, note.as_str());
                }
                Err(e.message())
            },
        }
    }
}

// --- config changes -----------------------------------------------------------------------

/// The flat names, in order.
pub open spec fn flat_names(s: StoreState) -> Seq<Seq<char>> {
    chain_of(values_in_order(s.records).filter(|r: RecordState| r.flat is Some))
}

/// The names of records.
pub open spec fn chain_of(s: Seq<RecordState>) -> Seq<Seq<char>> {
    s.map_values(|r: RecordState| r.name)
}

/// The flat names, in order.
fn list_flat(store: &Store) -> (r: Vec<String>)
    ensures
        texts(r@) == flat_names(store@),
{
    let records = store::for_each_record(store);
    let ghost all = values_in_order(store@.records);
    let ghost keep = |r: RecordState| r.flat is Some;
    let mut out: Vec<String> = Vec::new();
    let mut i: usize = 0;
    proof {
        reveal(Seq::filter);
        assert(all.take(0) =~= Seq::<RecordState>::empty());
        assert(texts(out@) =~= chain_of(all.take(0).filter(keep)));
    }
    while i < records.len()
        invariant
            i <= records@.len(),
            views(records@) == all,
            keep == (|r: RecordState| r.flat is Some),
            texts(out@) == chain_of(all.take(i as int).filter(keep)),
        decreases records.len() - i,
    {
        let r = &records[i];
        let ghost past = all.take(i as int).filter(keep);
        let ghost now = all.take(i + 1);
        proof {
            assert(r@ == views(records@)[i as int]);
            assert(now.drop_last() =~= all.take(i as int));
            assert(now.last() == r@);
            reveal(Seq::filter);
        }
        if r.flat.is_some() {
            let ghost before = out@;
            out.push(r.name.clone());
            proof {
                assert(now.filter(keep) =~= past.push(r@));
                assert(texts(out@) =~= texts(before).push(r@.name));
                assert(chain_of(past.push(r@)) =~= chain_of(past).push(r@.name));
            }
        }
        i += 1;
    }
    assert(all.take(i as int) =~= all);
    out
}

/// A count that stops at the largest number.
pub open spec fn count_capped(n: nat) -> u32 {
    if n <= u32::MAX {
        n as u32
    } else {
        u32::MAX
    }
}

/// Whether nothing is held at the current ledger: no flat names, credits,
/// unwithdrawn tax, unreconciled amounts, escrowed deposits or calls in
/// flight.
pub open spec fn nothing_held(s: RegistryState) -> bool {
    &&& flat_names(s.store).len() == 0
    &&& total_of(as_nats(s.store.credits)) == 0
    &&& available_tax(s.store) == 0
    &&& s.store.settings.unreconciled == 0
    &&& s.in_flight == 0
    &&& running::escrow_of(s.store) == 0
}

/// What is said of funds that are held.
pub open spec fn held_text(s: RegistryState) -> Seq<char> {
    let base = "funds are held at the current ledger: "@ + decimal(
        count_capped(flat_names(s.store).len()) as nat,
    ) + " flat name(s), "@ + decimal(
        capped(total_of(as_nats(s.store.credits)) as int) as nat,
    ) + " cycles of credit, "@ + decimal(available_tax(s.store) as nat) + " of tax, "@ + decimal(
        s.store.settings.unreconciled as nat,
    ) + " unreconciled, "@ + decimal(s.in_flight as nat) + " call(s) in flight"@;
    if running::escrow_of(s.store) == 0 {
        base
    } else {
        base + ", "@ + decimal(capped(running::escrow_of(s.store) as int) as nat)
            + " escrowed in auctions"@
    }
}

/// Is any value held that a ledger change would strand? Describes it.
pub fn funds_held(reg: &Registry) -> (r: Result<(), String>)
    ensures
        r is Ok <==> nothing_held(reg@),
        r matches Err(e) ==> e@ == held_text(reg@),
{
    let names = list_flat(&reg.store);
    assert(texts(names@).len() == names@.len());
    let flat: u32 = if names.len() < 0xffff_ffff {
        names.len() as u32
    } else {
        0xffff_ffff
    };
    let credits: u128 = store::credits_outstanding(&reg.store);
    let tax: u128 = available(&reg.store);
    let (unreconciled, _) = harberger::unreconciled(&reg.store);
    let escrowed: u128 = running::escrowed(&reg.store);
    if flat == 0 && credits == 0 && tax == 0 && unreconciled == 0 && reg.in_flight == 0 && escrowed
        == 0 {
        return Ok(());
    }
    let mut e = join3(
        "funds are held at the current ledger: ",
        decimal_text(flat as u128).as_str(),
        " flat name(s), ",
    );
    e.append(decimal_text(credits).as_str());
    e.append(" cycles of credit, ");
    e.append(decimal_text(tax).as_str());
    e.append(" of tax, ");
    e.append(decimal_text(unreconciled).as_str());
    e.append(" unreconciled, ");
    e.append(decimal_text(reg.in_flight as u128).as_str());
    e.append(" call(s) in flight");
    if escrowed > 0 {
        e.append(", ");
        e.append(decimal_text(escrowed).as_str());
        e.append(" escrowed in auctions");
    }
    Err(e)
}

/// The registry with one record settled and its tax counted.
pub open spec fn settle_one(s: RegistryState, p: Params, name: Seq<char>, now: u64) -> RegistryState {
    if s.store.records.contains_key(name) {
        let r = s.store.records[name];
        with_record(
            with_store(s, with_tax(s.store, record_tax(p, r, now))),
            settled_record(p, r, now),
        )
    } else {
        s
    }
}

/// The registry with the records of some names settled, one after another.
pub open spec fn settle_each(s: RegistryState, p: Params, names: Seq<Seq<char>>, now: u64) -> RegistryState
    decreases names.len(),
{
    if names.len() == 0 {
        s
    } else {
        settle_one(settle_each(s, p, names.drop_last(), now), p, names.last(), now)
    }
}

/// The tax of each of some names.
pub open spec fn taxes_of(s: StoreState, p: Params, names: Seq<Seq<char>>, now: u64) -> Seq<nat> {
    names.map_values(|n: Seq<char>| record_tax(p, s.records[n], now) as nat)
}

/// Every record of a registry settled.
pub open spec fn all_settled(
    records: Map<Seq<char>, RecordState>,
    p: Params,
    now: u64,
) -> Map<Seq<char>, RecordState> {
    records.map_values(|r: RecordState| settled_record(p, r, now))
}

/// Settling different names settles each of them once and leaves the
/// others.
proof fn lemma_settle_each(s: RegistryState, p: Params, names: Seq<Seq<char>>, now: u64)
    requires
        keyed_by_name(s.store),
        names.no_duplicates(),
        forall|i: int| 0 <= i < names.len() ==> s.store.records.contains_key(#[trigger] names[i]),
    ensures
        ({
            let t = settle_each(s, p, names, now);
            &&& t.store.records.dom() == s.store.records.dom()
            &&& forall|n: Seq<char>| #[trigger]
                s.store.records.contains_key(n) ==> t.store.records[n] == if names.contains(n) {
                    settled_record(p, s.store.records[n], now)
                } else {
                    s.store.records[n]
                }
            &&& t.store.settings == (SettingsState {
                tax_collected: capped(
                    s.store.settings.tax_collected + sum_of(taxes_of(s.store, p, names, now)),
                ),
                ..s.store.settings
            })
            &&& t.store.handles == s.store.handles
            &&& t.store.deployers == s.store.deployers
            &&& t.store.credits == s.store.credits
            &&& t.store.auctions == s.store.auctions
            &&& t.in_flight == s.in_flight
            &&& keyed_by_name(t.store)
            &&& sound(s) ==> sound(t)
        }),
    decreases names.len(),
{
    let t = settle_each(s, p, names, now);
    if names.len() > 0 {
        let rest = names.drop_last();
        let last = names.last();
        assert forall|i: int| 0 <= i < rest.len() implies s.store.records.contains_key(
            #[trigger] rest[i],
        ) by {
            assert(rest[i] == names[i]);
        }
        assert(rest.no_duplicates()) by {
            assert forall|i: int, j: int|
                0 <= i < rest.len() && 0 <= j < rest.len() && i != j implies rest[i] != rest[j] by {
                assert(names[i] != names[j]);
            }
        }
        lemma_settle_each(s, p, rest, now);
        let u = settle_each(s, p, rest, now);
        assert(names[names.len() - 1] == last);
        assert(s.store.records.contains_key(last));
        assert(u.store.records.dom().contains(last));
        assert(u.store.records.contains_key(last));
        assert(!rest.contains(last)) by {
            if rest.contains(last) {
                let i = choose|i: int| 0 <= i < rest.len() && rest[i] == last;
                assert(names[i] != names[names.len() - 1]);
            }
        }
        let r = s.store.records[last];
        assert(u.store.records[last] == r);
        assert(r.name == last);
        let tax = record_tax(p, r, now);
        let taxes = taxes_of(s.store, p, names, now);
        assert(taxes.drop_last() =~= taxes_of(s.store, p, rest, now));
        assert(taxes.last() == tax as nat);
        assert(t.store.records.dom() =~= s.store.records.dom());
        assert forall|n: Seq<char>| #[trigger] s.store.records.contains_key(
            n,
        ) implies t.store.records[n] == if names.contains(n) {
            settled_record(p, s.store.records[n], now)
        } else {
            s.store.records[n]
        } by {
            if n == last {
                assert(names.contains(n));
            } else {
                if names.contains(n) {
                    let i = choose|i: int| 0 <= i < names.len() && names[i] == n;
                    assert(rest[i] == n);
                }
                if rest.contains(n) {
                    let i = choose|i: int| 0 <= i < rest.len() && rest[i] == n;
                    assert(names[i] == n);
                }
            }
        }
        assert forall|n: Seq<char>| #[trigger] t.store.records.contains_key(
            n,
        ) implies t.store.records[n].name == n by {
            assert(t.store.records.dom().contains(n));
            assert(s.store.records.contains_key(n));
        }
        if sound(s) {
            let taxed = with_store(u, with_tax(u.store, tax));
            assert(sound(taxed));
            assert(good_record(s.store.handles, last, r));
            lemma_record_sound(taxed, settled_record(p, r, now));
        }
    } else {
        assert(taxes_of(s.store, p, names, now) =~= Seq::<nat>::empty());
    }
}

/// Flat names are different names of flat records.
pub(crate) proof fn lemma_flat_names(s: StoreState)
    requires
        keyed_by_name(s),
        lists_texts(texts_in_order(s.records.dom()), s.records.dom()),
    ensures
        flat_names(s).no_duplicates(),
        forall|i: int|
            0 <= i < flat_names(s).len() ==> s.records.contains_key(#[trigger] flat_names(s)[i]),
        forall|n: Seq<char>| #[trigger]
            s.records.contains_key(n) && s.records[n].flat is Some ==> flat_names(s).contains(n),
{
    let names = texts_in_order(s.records.dom());
    let all = values_in_order(s.records);
    let keep = |r: RecordState| r.flat is Some;
    let kept = all.filter(keep);
    let flats = flat_names(s);
    assert forall|i: int| 0 <= i < all.len() implies s.records.contains_key(names[i])
        && #[trigger] all[i] == s.records[names[i]] && all[i].name == names[i] by {
        assert(s.records.dom().contains(names[i]));
    }
    assert(all.no_duplicates()) by {
        assert forall|i: int, j: int| 0 <= i < all.len() && 0 <= j < all.len() && i
            != j implies all[i] != all[j] by {
            assert(all[i].name == names[i] && all[j].name == names[j]);
            if i < j {
                assert(crate::order::text_before(names[i], names[j]));
                lemma_before_irreflexive(vstd::utf8::encode_utf8(names[i]));
            } else {
                assert(crate::order::text_before(names[j], names[i]));
                lemma_before_irreflexive(vstd::utf8::encode_utf8(names[i]));
            }
        }
    }
    lemma_filter(all, keep);
    assert forall|i: int| 0 <= i < flats.len() implies s.records.contains_key(
        #[trigger] flats[i],
    ) by {
        assert(kept.contains(kept[i]));
        let j = choose|j: int| 0 <= j < all.len() && all[j] == kept[i];
        assert(all[j] == s.records[names[j]]);
    }
    assert forall|i: int, j: int| 0 <= i < flats.len() && 0 <= j < flats.len() && i
        != j implies flats[i] != flats[j] by {
        assert(kept[i] != kept[j]);
        assert(kept.contains(kept[i]) && kept.contains(kept[j]));
        let a = choose|a: int| 0 <= a < all.len() && all[a] == kept[i];
        let b = choose|b: int| 0 <= b < all.len() && all[b] == kept[j];
        assert(all[a] == s.records[names[a]] && all[b] == s.records[names[b]]);
    }
    assert forall|n: Seq<char>| #[trigger]
        s.records.contains_key(n) && s.records[n].flat is Some implies flats.contains(n) by {
        assert(s.records.dom().contains(n));
        assert(names.contains(n));
        let j = choose|j: int| 0 <= j < names.len() && names[j] == n;
        assert(all[j] == s.records[n]);
        assert(all.contains(all[j]));
        assert(kept.contains(all[j]));
        let i = choose|i: int| 0 <= i < kept.len() && kept[i] == all[j];
        assert(flats[i] == n);
    }
}

/// What a filter keeps.
proof fn lemma_filter<A>(s: Seq<A>, keep: spec_fn(A) -> bool)
    ensures
        forall|x: A| #[trigger] s.filter(keep).contains(x) <==> s.contains(x) && keep(x),
        s.no_duplicates() ==> s.filter(keep).no_duplicates(),
    decreases s.len(),
{
    reveal(Seq::filter);
    let out = s.filter(keep);
    if s.len() > 0 {
        let rest = s.drop_last();
        let last = s.last();
        let inner = rest.filter(keep);
        lemma_filter(rest, keep);
        assert(s =~= rest.push(last));
        assert forall|x: A| #[trigger] out.contains(x) <==> s.contains(x) && keep(x) by {
            if rest.contains(x) {
                let i = choose|i: int| 0 <= i < rest.len() && rest[i] == x;
                assert(s[i] == x);
            }
            if s.contains(x) && x != last {
                let i = choose|i: int| 0 <= i < s.len() && s[i] == x;
                assert(rest[i] == x);
            }
            assert(inner.contains(x) <==> rest.contains(x) && keep(x));
            if keep(last) {
                assert(out == inner.push(last));
                if inner.contains(x) {
                    let i = choose|i: int| 0 <= i < inner.len() && inner[i] == x;
                    assert(out[i] == x);
                }
                if x == last {
                    assert(out[out.len() - 1] == x);
                    assert(s[s.len() - 1] == x);
                }
                if out.contains(x) && x != last {
                    let i = choose|i: int| 0 <= i < out.len() && out[i] == x;
                    assert(inner[i] == x);
                }
            } else {
                assert(out == inner);
            }
        }
        if s.no_duplicates() {
            assert(rest.no_duplicates()) by {
                assert forall|i: int, j: int|
                    0 <= i < rest.len() && 0 <= j < rest.len() && i != j implies rest[i]
                    != rest[j] by {
                    assert(s[i] != s[j]);
                }
            }
            if keep(last) {
                assert(!inner.contains(last)) by {
                    if inner.contains(last) {
                        assert(rest.contains(last));
                        let i = choose|i: int| 0 <= i < rest.len() && rest[i] == last;
                        assert(s[i] != s[s.len() - 1]);
                    }
                }
                assert(out == inner.push(last));
                assert forall|i: int, j: int|
                    0 <= i < out.len() && 0 <= j < out.len() && i != j implies out[i]
                    != out[j] by {
                    if i == inner.len() {
                        assert(inner.contains(inner[j]));
                    } else if j == inner.len() {
                        assert(inner.contains(inner[i]));
                    }
                }
            }
        }
    }
}

/// Settle every flat name to `now` under `cfg` and store the result, so a
/// rate change from here on applies only to time after it. Returns how many
/// names were settled and the tax they gave up.
pub fn settle_all(reg: &mut Registry, cfg: &Config, now: u64) -> (r: (u32, u128))
    ensures
        final(reg)@ == settle_each(
            old(reg)@,
            params_of(cfg@),
            flat_names(old(reg)@.store),
            now,
        ),
        r.0 == count_capped(flat_names(old(reg)@.store).len()),
        r.1 == capped(
            sum_of(
                taxes_of(old(reg)@.store, params_of(cfg@), flat_names(old(reg)@.store), now),
            ) as int,
        ),
        final(reg)@.store.records == all_settled(old(reg)@.store.records, params_of(cfg@), now),
        final(reg)@.store.settings.config == old(reg)@.store.settings.config,
        final(reg)@.store.settings.tax_collected == capped(
            old(reg)@.store.settings.tax_collected + sum_of(
                taxes_of(old(reg)@.store, params_of(cfg@), flat_names(old(reg)@.store), now),
            ),
        ),
        sound(old(reg)@) ==> sound(final(reg)@),
        is_settled(old(reg)@, final(reg)@, cfg@, now),
        tells_settled(old(reg)@.store, cfg@, now, r),
{
    let ghost s = reg@;
    let ghost p = params_of(cfg@);
    reg.store.records.facts();
    let keys = reg.store.records.keys();
    let names = list_flat(&reg.store);
    let ghost flats = flat_names(s.store);
    let ghost taxes = taxes_of(s.store, p, flats, now);
    proof {
        assert(keyed_by_name(s.store)) by {
            assert forall|n: Seq<char>| #[trigger] s.store.records.contains_key(
                n,
            ) implies s.store.records[n].name == n by {}
        }
        lemma_flat_names(s.store);
    }
    let mut count: u32 = 0;
    let mut total: u128 = 0;
    let mut i: usize = 0;
    proof {
        assert(flats.take(0) =~= Seq::<Seq<char>>::empty());
        assert(taxes.take(0) =~= Seq::<nat>::empty());
    }
    while i < names.len()
        invariant
            i <= names@.len(),
            p == params_of(cfg@),
            texts(names@) == flats,
            flats == flat_names(s.store),
            taxes == taxes_of(s.store, p, flats, now),
            keyed_by_name(s.store),
            flats.no_duplicates(),
            forall|j: int|
                0 <= j < flats.len() ==> s.store.records.contains_key(#[trigger] flats[j]),
            reg@ == settle_each(s, p, flats.take(i as int), now),
            count == count_capped(i as nat),
            total == capped(sum_of(taxes.take(i as int)) as int),
        decreases names.len() - i,
    {
        let ghost past = flats.take(i as int);
        let ghost next = flats.take(i + 1);
        let ghost name = flats[i as int];
        proof {
            assert(name == names@[i as int]@);
            assert(next.drop_last() =~= past);
            assert(next.last() == name);
            assert(past.no_duplicates()) by {
                assert forall|a: int, b: int|
                    0 <= a < past.len() && 0 <= b < past.len() && a != b implies past[a]
                    != past[b] by {
                    assert(flats[a] != flats[b]);
                }
            }
            assert forall|j: int| 0 <= j < past.len() implies s.store.records.contains_key(
                #[trigger] past[j],
            ) by {
                assert(past[j] == flats[j]);
            }
            lemma_settle_each(s, p, past, now);
            assert(!past.contains(name)) by {
                if past.contains(name) {
                    let j = choose|j: int| 0 <= j < past.len() && past[j] == name;
                    assert(flats[j] != flats[i as int]);
                }
            }
            assert(s.store.records.contains_key(name));
            assert(reg@.store.records.dom().contains(name));
            lemma_sum_take(taxes, i as int);
        }
        match store::get_record(&reg.store, names[i].as_str()) {
            Some(mut r) => {
                let (_, tax) = harberger::settle_record(cfg, &mut r, now);
                assert(tax as nat == taxes[i as int]);
                total = total.saturating_add(tax);
                count = count.saturating_add(1);
                commit_flat(reg, &r, tax);
            },
            None => {},
        }
        i += 1;
    }
    proof {
        assert(flats.take(i as int) =~= flats);
        assert(taxes.take(i as int) =~= taxes);
        lemma_settle_each(s, p, flats, now);
        let after = reg@.store.records;
        let want = all_settled(s.store.records, p, now);
        assert(after.dom() =~= want.dom());
        assert forall|n: Seq<char>| #[trigger] after.dom().contains(n) implies after[n]
            == want[n] by {
            assert(s.store.records.contains_key(n));
        }
        assert(after =~= want);
        law_settling_reaches_every_name(s, cfg@, now);
        lemma_tells_settled(s.store, cfg@, now, (count, total));
    }
    (count, total)
}

/// Why a config change is refused before the ledger is asked for its fee.
pub open spec fn config_fault(
    s: RegistryState,
    caller: Seq<u8>,
    is_controller: bool,
    c: ConfigState,
) -> Option<Seq<char>> {
    if admin_fault(caller, is_controller) is Some {
        admin_fault(caller, is_controller)
    } else {
        ledger_fault(s, c)
    }
}

/// Why the ledger cannot be changed to that of a config.
pub open spec fn ledger_fault(s: RegistryState, c: ConfigState) -> Option<Seq<char>> {
    if c.ledger != s.store.settings.config.ledger && !nothing_held(s) {
        Some(held_text(s))
    } else {
        None
    }
}

/// The registry before a config with another rate is stored: every name
/// settled under the current one.
pub open spec fn rate_settled(s: RegistryState, c: ConfigState, now: u64) -> RegistryState {
    let current = s.store.settings.config;
    if c.rate_bps != current.rate_bps {
        settle_each(s, params_of(current), flat_names(s.store), now)
    } else {
        s
    }
}

impl Registry {
    /// First half of changing the tax settings. Controllers only. The ledger
    /// may only change while nothing is held or in flight at the current
    /// one. The ledger is asked for its fee next.
    pub fn set_harberger_config_start(
        &self,
        caller: &Principal,
        is_controller: bool,
        c: &Config,
    ) -> (r: Result<(), String>)
        ensures
            r is Ok <==> config_fault(self@, caller@, is_controller, c@) is None,
            r matches Err(e) ==> config_fault(self@, caller@, is_controller, c@) == Some(e@),
    {
        match check_admin(caller, is_controller) {
            Err(e) => {
                return Err(e);
            },
            Ok(_) => {},
        }
        let current = harberger::config(&self.store);
        if !c.ledger.same(&current.ledger) {
            return funds_held(self);
        }
        Ok(())
    }

    /// Second half, with the ledger's answer about its fee, which is pinned
    /// whatever the caller passed. Another controller may have moved first,
    /// so the ledger change is checked again. Existing names are settled
    /// under the old rate first, so the new rate never reaches back in time.
    pub fn set_harberger_config_finish(
        &mut self,
        c: Config,
        reply: Result<u128, Failure>,
        now: u64,
    ) -> (r: Result<(), String>)
        ensures
            match answer(reply) {
                Err(f) => r is Err && r->Err_0@ == failure_text(f) && final(self)@ == old(self)@,
                Ok(fee) => {
                    let s = old(self)@;
                    let pinned = ConfigState { fee, ..c@ };
                    match ledger_fault(s, c@) {
                        Some(e) => r is Err && r->Err_0@ == e && final(self)@ == s,
                        None => {
                            let ready = rate_settled(s, c@, now);
                            if params_ok(params_of(pinned)) {
                                r is Ok && final(self)@ == with_store(
                                    ready,
                                    with_config(ready.store, pinned),
                                ) && is_reconfigured(s, final(self)@, c@, fee, now)
                            } else {
                                r is Err && r->Err_0@ == params_error(params_of(pinned))
                                    && final(self)@ == ready
                            }
                        },
                    }
                },
            },
            sound(old(self)@) ==> sound(final(self)@),
    {
        let mut c = c;
        let ghost s = self@;
        let ghost asked = c@;
        self.store.records.facts();
        proof {
            assert(keyed_by_name(s.store)) by {
                assert forall|n: Seq<char>| #[trigger] s.store.records.contains_key(
                    n,
                ) implies s.store.records[n].name == n by {}
            }
            if answer(reply) is Ok {
                law_configs_pin_the_fee(s, asked, answer(reply)->Ok_0, now);
            }
        }
        match reply {
            Err(f) => {
                return Err(f.message());
            },
            Ok(fee) => {
                c.fee = fee;
            },
        }
        let current = harberger::config(&self.store);
        if !c.ledger.same(&current.ledger) {
            match funds_held(self) {
                Err(e) => {
                    return Err(e);
                },
                Ok(_) => {},
            }
        }
        if c.rate_bps != current.rate_bps {
            settle_all(self, &current, now);
        }
        harberger::set_config(&mut self.store, &c)
    }

    /// The settings of the tax.
    pub fn harberger_config(&self) -> (r: Config)
        ensures
            r@ == self@.store.settings.config,
    {
        harberger::config(&self.store)
    }
}

// --- what config changes promise ------------------------------------------------------------------

/// A rate change never reaches back in time: when a config with another rate
/// is stored, every holding has been settled and owes nothing under the old
/// rate.
pub proof fn law_rate_change_settles_first(
    s: RegistryState,
    c: ConfigState,
    now: u64,
    name: Seq<char>,
)
    requires
        keyed_by_name(s.store),
        s.store.records.dom().finite(),
        c.rate_bps != s.store.settings.config.rate_bps,
        s.store.records.contains_key(name),
        s.store.records[name].flat is Some,
    ensures
        ({
            let p = params_of(s.store.settings.config);
            let r = rate_settled(s, c, now).store.records[name];
            &&& r == settled_record(p, s.store.records[name], now)
            &&& r.flat matches Some(h) && taken(p, h, now) == 0
        }),
{
    let p = params_of(s.store.settings.config);
    lemma_texts_listed(s.store.records.dom());
    lemma_flat_names(s.store);
    lemma_settle_each(s, p, flat_names(s.store), now);
    law_settling_twice_takes_nothing(p, s.store.records[name].flat->0, now);
}

/// A credit is paid out at most once: what a withdrawal takes cannot be
/// withdrawn again.
pub proof fn law_credit_is_paid_once(s: RegistryState, caller: Seq<u8>, first: u128, second: u128)
    requires
        withdraw_fault(s.store, caller, first) is None,
        withdraw_fault(with_debit(s, caller, first).store, caller, second) is None,
    ensures
        first + second <= owed(s.store.credits, caller),
{
}

/// A withdrawal is taken up exactly where the caller is owed the amount and
/// it is more than the ledger's fee. The amount then leaves what the caller
/// is owed, before anything is paid, and nothing else changes.
pub proof fn law_withdrawals_debit_first(s: RegistryState, caller: Seq<u8>, amount: u128)
    ensures
        withdraw_fault(s.store, caller, amount) is None <==> {
            &&& caller != anonymous()
            &&& amount > s.store.settings.config.fee
            &&& amount <= owed(s.store.credits, caller)
        },
        withdraw_fault(s.store, caller, amount) is None ==> ({
            let t = sent(with_debit(s, caller, amount));
            &&& only_credits_move(s, t)
            &&& t.in_flight == if s.in_flight == u32::MAX {
                u32::MAX as int
            } else {
                s.in_flight + 1
            }
            &&& forall|q: Seq<u8>|
                #![trigger owed(t.store.credits, q)]
                owed(t.store.credits, q) == if q == caller {
                    owed(s.store.credits, q) - amount
                } else {
                    owed(s.store.credits, q) as int
                }
        }),
{
}

/// What a payout leaves. A paid one, and one whose fate is unknown, give
/// nothing back, so that nothing is paid twice; one that certainly failed
/// gives the whole amount back.
pub proof fn law_failed_withdrawals_come_back(
    s: RegistryState,
    w: WithdrawalState,
    reply: Result<u128, FailureState>,
)
    ensures
        ({
            let t = withdraw_done(s, w, reply);
            &&& one_landed(s, t)
            &&& t.leaves == s.leaves
            &&& reply is Ok ==> t.store == s.store
            &&& reply matches Err(f) ==> {
                &&& f !is Undecodable ==> only_credits_move(s, t) && credits_one(
                    s.store,
                    t.store,
                    w.caller,
                    w.amount,
                )
                &&& f is Undecodable ==> t.store == (StoreState {
                    settings: SettingsState {
                        unreconciled: capped(s.store.settings.unreconciled + w.amount),
                        unreconciled_last: encode_utf8(
                            "pay "@ + decimal(w.amount as nat) + " to "@ + principal_text(w.caller)
                                + ": "@ + failure_text(f),
                        ),
                        ..s.store.settings
                    },
                    ..s.store
                })
            }
        }),
{
}

/// Collected tax is turned into cycles only as far as it was not withdrawn
/// yet, and only while the ledger's fee is the pinned one; so never more is
/// withdrawn than was collected, whatever other fundings did meanwhile.
pub proof fn law_funding_spends_only_tax(
    s: RegistryState,
    f: FundingState,
    reply: Result<u128, FailureState>,
)
    requires
        s.store.settings.tax_withdrawn <= s.store.settings.tax_collected,
    ensures
        fee_fault(s.store, f, reply) is None <==> {
            &&& reply == Ok::<u128, FailureState>(f.cfg.fee)
            &&& f.cfg.fee < f.amount
            &&& s.store.settings.tax_withdrawn + f.amount <= s.store.settings.tax_collected
        },
        fee_fault(s.store, f, reply) is None ==> funding_noted(s, f) == (RegistryState {
            store: StoreState {
                settings: SettingsState {
                    tax_withdrawn: (s.store.settings.tax_withdrawn + f.amount) as u128,
                    ..s.store.settings
                },
                ..s.store
            },
            ..s
        }),
{
}

/// Only a controller turns tax into cycles, more than the fee of it and no
/// more than was collected and not withdrawn; and what is started, here and
/// for a withdrawal, is what was asked, at the ledger and fee configured.
pub proof fn law_controllers_fund_the_canister(
    s: RegistryState,
    caller: Seq<u8>,
    is_controller: bool,
    amount: u128,
)
    ensures
        fund_fault(s.store, caller, is_controller, amount) is None <==> {
            &&& caller != anonymous()
            &&& is_controller
            &&& amount > s.store.settings.config.fee
            &&& s.store.settings.tax_withdrawn + amount <= s.store.settings.tax_collected
        },
        started_funding(s.store, amount).amount == amount,
        started_funding(s.store, amount).cfg == s.store.settings.config,
        started_withdrawal(s.store, caller, amount).caller == caller,
        started_withdrawal(s.store, caller, amount).amount == amount,
        started_withdrawal(s.store, caller, amount).cfg == s.store.settings.config,
{
}

/// What a funding leaves: the amount stays withdrawn unless the ledger
/// certainly moved nothing.
pub proof fn law_failed_fundings_come_back(
    s: RegistryState,
    f: FundingState,
    reply: Result<u128, FailureState>,
)
    requires
        f.amount <= s.store.settings.tax_withdrawn,
    ensures
        ({
            let t = fund_done(s, f, reply);
            &&& one_landed(s, t)
            &&& t.leaves == s.leaves
            &&& reply is Ok ==> t.store == s.store
            &&& reply matches Err(e) ==> {
                &&& e !is Undecodable ==> t.store == (StoreState {
                    settings: SettingsState {
                        tax_withdrawn: (s.store.settings.tax_withdrawn - f.amount) as u128,
                        ..s.store.settings
                    },
                    ..s.store
                })
                &&& e is Undecodable ==> t.store == (StoreState {
                    settings: SettingsState {
                        unreconciled: capped(s.store.settings.unreconciled + f.amount),
                        unreconciled_last: encode_utf8(
                            "fund_self "@ + decimal(f.amount as nat) + ": "@ + failure_text(e),
                        ),
                        ..s.store.settings
                    },
                    ..s.store
                })
            }
        }),
{
}

/// Whether every holding was settled up to `now` and its tax counted, and
/// nothing else changed.
pub open spec fn is_settled(s: RegistryState, t: RegistryState, c: ConfigState, now: u64) -> bool {
    let p = params_of(c);
    &&& t.store.records.dom() == s.store.records.dom()
    &&& forall|n: Seq<char>| #[trigger]
        s.store.records.contains_key(n) ==> {
            let (was, r) = (s.store.records[n], t.store.records[n]);
            r == (RecordState {
                flat: match was.flat {
                    Some(h) => Some(settled(p, h, now)),
                    None => None,
                },
                ..was
            })
        }
    &&& exists|names: Seq<Seq<char>>| #[trigger]
        lists_flat(s.store, names) && t.store.settings == (SettingsState {
            tax_collected: capped(
                s.store.settings.tax_collected + sum_of(
                    names.map_values(|n: Seq<char>| taken(p, s.store.records[n].flat->0, now) as nat),
                ),
            ),
            ..s.store.settings
        })
    &&& t.store.handles == s.store.handles
    &&& t.store.deployers == s.store.deployers
    &&& t.store.credits == s.store.credits
    &&& t.store.auctions == s.store.auctions
    &&& t.in_flight == s.in_flight
}

/// Whether a list is of the names with a holding, each once.
pub open spec fn lists_flat(s: StoreState, names: Seq<Seq<char>>) -> bool {
    &&& names.no_duplicates()
    &&& forall|n: Seq<char>| #[trigger]
        names.contains(n) <==> s.records.contains_key(n) && s.records[n].flat is Some
}

/// The flat names are those with a holding.
proof fn lemma_lists_flat(s: StoreState)
    requires
        keyed_by_name(s),
        s.records.dom().finite(),
    ensures
        lists_flat(s, flat_names(s)),
        forall|i: int|
            0 <= i < flat_names(s).len() ==> s.records.contains_key(#[trigger] flat_names(s)[i]),
{
    lemma_texts_listed(s.records.dom());
    lemma_flat_names(s);
    let names = texts_in_order(s.records.dom());
    let all = values_in_order(s.records);
    let keep = |r: RecordState| r.flat is Some;
    let kept = all.filter(keep);
    let flats = flat_names(s);
    lemma_filter(all, keep);
    assert forall|n: Seq<char>| #[trigger] flats.contains(n) implies s.records[n].flat is Some by {
        let i = choose|i: int| 0 <= i < flats.len() && flats[i] == n;
        assert(kept.contains(kept[i]));
        let j = choose|j: int| 0 <= j < all.len() && all[j] == kept[i];
        assert(s.records.dom().contains(names[j]));
        assert(all[j] == s.records[names[j]]);
    }
}

/// Settling everything settles every holding once, counts its tax, and
/// leaves the rest alone.
pub proof fn law_settling_reaches_every_name(s: RegistryState, c: ConfigState, now: u64)
    requires
        keyed_by_name(s.store),
        s.store.records.dom().finite(),
    ensures
        is_settled(s, settle_each(s, params_of(c), flat_names(s.store), now), c, now),
{
    let p = params_of(c);
    let flats = flat_names(s.store);
    lemma_lists_flat(s.store);
    lemma_settle_each(s, p, flats, now);
    let t = settle_each(s, p, flats, now);
    assert forall|n: Seq<char>| #[trigger] s.store.records.contains_key(n) implies ({
        let (was, r) = (s.store.records[n], t.store.records[n]);
        r == (RecordState {
            flat: match was.flat {
                Some(h) => Some(settled(p, h, now)),
                None => None,
            },
            ..was
        })
    }) by {
        assert(flats.contains(n) <==> s.store.records[n].flat is Some);
    }
    lemma_taxes_taken(s.store, p, now);
}

/// Whether a pair is how many names have a holding and what they owed.
pub open spec fn tells_settled(s: StoreState, c: ConfigState, now: u64, r: (u32, u128)) -> bool {
    exists|names: Seq<Seq<char>>| #[trigger]
        lists_flat(s, names) && r.0 == (if names.len() <= u32::MAX {
            names.len()
        } else {
            u32::MAX as nat
        }) && r.1 == capped(
            sum_of(
                names.map_values(
                    |n: Seq<char>| taken(params_of(c), s.records[n].flat->0, now) as nat,
                ),
            ) as int,
        )
}

/// The count and the sum of the flat names tell what was settled.
proof fn lemma_tells_settled(s: StoreState, c: ConfigState, now: u64, r: (u32, u128))
    requires
        keyed_by_name(s),
        s.records.dom().finite(),
        r.0 == count_capped(flat_names(s).len()),
        r.1 == capped(sum_of(taxes_of(s, params_of(c), flat_names(s), now)) as int),
    ensures
        tells_settled(s, c, now, r),
{
    lemma_lists_flat(s);
    lemma_taxes_taken(s, params_of(c), now);
}

/// What the flat names are taxed is what is taken from their holdings.
proof fn lemma_taxes_taken(s: StoreState, p: Params, now: u64)
    requires
        keyed_by_name(s),
        s.records.dom().finite(),
    ensures
        taxes_of(s, p, flat_names(s), now) == flat_names(s).map_values(
            |n: Seq<char>| taken(p, s.records[n].flat->0, now) as nat,
        ),
{
    let flats = flat_names(s);
    lemma_lists_flat(s);
    assert forall|i: int| 0 <= i < flats.len() implies record_tax(
        p,
        s.records[#[trigger] flats[i]],
        now,
    ) == taken(p, s.records[flats[i]].flat->0, now) by {
        assert(flats.contains(flats[i]));
    }
    assert(taxes_of(s, p, flats, now) =~= flats.map_values(
        |n: Seq<char>| taken(p, s.records[n].flat->0, now) as nat,
    ));
}

/// Whether nothing is kept at the ledger: no name has a holding, nobody is
/// owed anything, all collected tax was withdrawn, nothing is unreconciled
/// or in flight, and no bid is in escrow.
pub open spec fn keeps_nothing(s: RegistryState) -> bool {
    &&& forall|n: Seq<char>| #[trigger]
        s.store.records.contains_key(n) ==> s.store.records[n].flat is None
    &&& forall|q: Seq<u8>| #[trigger] owed(s.store.credits, q) == 0
    &&& s.store.settings.tax_collected <= s.store.settings.tax_withdrawn
    &&& s.store.settings.unreconciled == 0
    &&& s.in_flight == 0
    &&& forall|n: Seq<char>, i: int|
        s.store.auctions.contains_key(n) && 0 <= i < s.store.auctions[n].auction.bids.len()
            ==> (#[trigger] s.store.auctions[n].auction.bids[i]).deposit == 0
}

/// Numbers add up to zero exactly where each is zero.
proof fn lemma_total_zero<K>(m: Map<K, nat>)
    requires
        m.dom().finite(),
    ensures
        total_of(m) == 0 <==> forall|k: K| #[trigger] m.contains_key(k) ==> m[k] == 0,
    decreases m.dom().len(),
{
    if m.dom().len() > 0 {
        let c = m.dom().choose();
        assert(m.remove(c).dom() =~= m.dom().remove(c));
        lemma_total_zero(m.remove(c));
        lemma_total_remove(m, c);
        if total_of(m) == 0 {
            assert forall|k: K| #[trigger] m.contains_key(k) implies m[k] == 0 by {
                if k != c {
                    assert(m.remove(c).contains_key(k));
                }
            }
        }
        if forall|k: K| #[trigger] m.contains_key(k) ==> m[k] == 0 {
            assert(m.contains_key(c));
            assert forall|k: K| #[trigger] m.remove(c).contains_key(k) implies m.remove(c)[k]
                == 0 by {
                assert(m.contains_key(k));
            }
        }
    } else {
        m.dom().lemma_len0_is_empty();
        assert forall|k: K| #[trigger] m.contains_key(k) implies m[k] == 0 by {
            assert(m.dom().contains(k));
        }
    }
}

/// Numbers in a list add up to zero exactly where each is zero.
proof fn lemma_sum_zero(s: Seq<nat>)
    ensures
        sum_of(s) == 0 <==> forall|i: int| 0 <= i < s.len() ==> #[trigger] s[i] == 0,
    decreases s.len(),
{
    if s.len() > 0 {
        let rest = s.drop_last();
        lemma_sum_zero(rest);
        if sum_of(s) == 0 {
            assert forall|i: int| 0 <= i < s.len() implies #[trigger] s[i] == 0 by {
                if i < rest.len() {
                    assert(rest[i] == s[i]);
                }
            }
        }
        if forall|i: int| 0 <= i < s.len() ==> #[trigger] s[i] == 0 {
            assert(s[s.len() - 1] == 0);
            assert forall|i: int| 0 <= i < rest.len() implies #[trigger] rest[i] == 0 by {
                assert(s[i] == 0);
            }
        }
    }
}

/// Only a controller changes the settings, and the ledger only while nothing
/// at all is kept at the current one; so no holder, creditor or bidder can be
/// stranded.
pub proof fn law_ledger_changes_strand_nobody(
    s: RegistryState,
    caller: Seq<u8>,
    is_controller: bool,
    c: ConfigState,
)
    requires
        keyed_by_name(s.store),
        s.store.records.dom().finite(),
        s.store.credits.dom().finite(),
        s.store.auctions.dom().finite(),
    ensures
        nothing_held(s) <==> keeps_nothing(s),
        ledger_fault(s, c) is None <==> c.ledger == s.store.settings.config.ledger
            || keeps_nothing(s),
        config_fault(s, caller, is_controller, c) is None <==> caller != anonymous()
            && is_controller && (c.ledger == s.store.settings.config.ledger || keeps_nothing(s)),
{
    let flats = flat_names(s.store);
    lemma_lists_flat(s.store);
    let credits = as_nats(s.store.credits);
    assert(credits.dom() =~= s.store.credits.dom());
    lemma_total_zero(credits);
    let escrow = running::escrows(s.store.auctions);
    assert(escrow.dom() =~= s.store.auctions.dom());
    lemma_total_zero(escrow);
    if nothing_held(s) {
        assert forall|n: Seq<char>| #[trigger] s.store.records.contains_key(
            n,
        ) implies s.store.records[n].flat is None by {
            if s.store.records[n].flat is Some {
                assert(flats.contains(n));
            }
        }
        assert forall|q: Seq<u8>| #[trigger] owed(s.store.credits, q) == 0 by {
            if s.store.credits.contains_key(q) {
                assert(credits.contains_key(q));
            }
        }
        assert forall|n: Seq<char>, i: int|
            s.store.auctions.contains_key(n) && 0 <= i
                < s.store.auctions[n].auction.bids.len() implies (
        #[trigger] s.store.auctions[n].auction.bids[i]).deposit == 0 by {
            let ds = running::deposits_of(s.store.auctions[n].auction.bids);
            assert(escrow.contains_key(n));
            assert(escrow[n] == sum_of(ds));
            lemma_sum_zero(ds);
            assert(ds[i] == 0);
        }
    }
    if keeps_nothing(s) {
        if flats.len() > 0 {
            assert(flats.contains(flats[0]));
        }
        assert forall|q: Seq<u8>| #[trigger] credits.contains_key(q) implies credits[q] == 0 by {
            assert(owed(s.store.credits, q) == 0);
        }
        assert forall|n: Seq<char>| #[trigger] escrow.contains_key(n) implies escrow[n] == 0 by {
            let bids = s.store.auctions[n].auction.bids;
            let ds = running::deposits_of(bids);
            assert forall|i: int| 0 <= i < ds.len() implies #[trigger] ds[i] == 0 by {
                assert(s.store.auctions[n].auction.bids[i].deposit == 0);
            }
            lemma_sum_zero(ds);
        }
    }
}

/// Whether `t` is `s` with another config: what was asked for, with the
/// ledger's own fee whatever was asked. Where the rate changes, everything
/// was settled at the old one first; otherwise nothing else changes.
pub open spec fn is_reconfigured(
    s: RegistryState,
    t: RegistryState,
    c: ConfigState,
    fee: u128,
    now: u64,
) -> bool {
    let asked = ConfigState { fee, ..c };
    &&& t.store.settings.config == asked
    &&& exists|u: RegistryState| #[trigger]
        settled_for(s, u, c, now) && t == (RegistryState {
            store: StoreState {
                settings: SettingsState { config: asked, ..u.store.settings },
                ..u.store
            },
            ..u
        })
}

/// Whether `u` is `s` ready for a config: settled at the old rate where the
/// rate changes, and the same otherwise.
pub open spec fn settled_for(s: RegistryState, u: RegistryState, c: ConfigState, now: u64) -> bool {
    let current = s.store.settings.config;
    if c.rate_bps != current.rate_bps {
        is_settled(s, u, current, now)
    } else {
        u == s
    }
}

/// A config that is in range is stored with the ledger's own fee, once every
/// name was settled at the old rate where the rate changes.
pub proof fn law_configs_pin_the_fee(s: RegistryState, c: ConfigState, fee: u128, now: u64)
    requires
        keyed_by_name(s.store),
        s.store.records.dom().finite(),
    ensures
        ({
            let ready = rate_settled(s, c, now);
            let pinned = ConfigState { fee, ..c };
            &&& settled_for(s, ready, c, now)
            &&& is_reconfigured(
                s,
                with_store(ready, with_config(ready.store, pinned)),
                c,
                fee,
                now,
            )
            &&& params_ok(params_of(pinned)) <==> c.rate_bps <= 10_000 && c.min_price
                <= 1_000_000_000_000_000_000 && c.grace_ns > 0
        }),
{
    law_settling_reaches_every_name(s, s.store.settings.config, now);
    assert(settled_for(s, rate_settled(s, c, now), c, now));
}

} // verus!
