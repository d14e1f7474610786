//! The Harberger tax on one holding: what the price costs per year, what a
//! balance pays for, and how a holding settles, lapses and becomes free.
//!
//! The rules are those of the ic-auction crate, which is called for each
//! of them. A holding is plain numbers here, so its rules can be stated.

use vstd::prelude::*;

use crate::text::decimal;

verus! {

/// A year, nanoseconds.
pub const YEAR_NS: u128 = 365 * 24 * 60 * 60 * 1_000_000_000;

/// The highest price anyone may assess, cycles.
pub const MAX_PRICE: u128 = 1_000_000_000_000_000_000;

/// The three numbers the tax needs.
#[derive(Clone, Copy, Debug, PartialEq, Eq, Structural)]
pub struct Params {
    /// Tax per year on the assessed price, in basis points.
    pub rate_bps: u32,
    /// Lowest price anyone may assess.
    pub min_price: u128,
    /// How long a holding with no balance stays with its owner.
    pub grace_ns: u64,
}

/// A holding: the assessed price, the prepaid balance and how far tax has
/// been settled.
#[derive(Clone, Copy, Debug, PartialEq, Eq, Structural)]
pub struct Harberger {
    pub price: u128,
    pub balance: u128,
    pub settled_ns: u64,
    /// When the balance ran out, if it did.
    pub lapsed_ns: Option<u64>,
}

/// Where a holding stands.
#[derive(Clone, Copy, Debug, PartialEq, Eq, Structural)]
pub enum Status {
    Active,
    Grace { until_ns: u64 },
    Free,
}

// --- the rules --------------------------------------------------------------------

/// The smaller of two numbers.
pub open spec fn least(a: int, b: int) -> int {
    if a <= b {
        a
    } else {
        b
    }
}

/// Addition that stops at the largest amount.
pub open spec fn capped(n: int) -> u128 {
    least(n, u128::MAX as int) as u128
}

/// Addition that stops at the latest time.
pub open spec fn capped_ns(n: int) -> u64 {
    least(n, u64::MAX as int) as u64
}

/// Tax per year at a price.
pub open spec fn yearly(p: Params, price: u128) -> int {
    least(price * p.rate_bps, u128::MAX as int) / 10_000
}

/// Tax at a price over a time; the largest amount where the product does
/// not fit.
pub open spec fn tax_over(p: Params, price: u128, elapsed: int) -> int {
    let x = yearly(p, price) * elapsed;
    if x <= u128::MAX {
        x / (YEAR_NS as int)
    } else {
        u128::MAX as int
    }
}

/// How long a balance pays the tax; None where nothing is owed or the
/// time is beyond counting.
pub open spec fn spent_after(p: Params, price: u128, balance: u128) -> Option<u64> {
    if yearly(p, price) == 0 || balance * YEAR_NS > u128::MAX {
        None
    } else {
        Some(capped_ns((balance * YEAR_NS) / yearly(p, price)))
    }
}

/// The least deposit at a price: the tax of one grace period.
pub open spec fn least_deposit(p: Params, price: u128) -> int {
    tax_over(p, price, p.grace_ns as int)
}

/// The tax due at `now` and not settled yet.
pub open spec fn due_at(p: Params, h: Harberger, now: u64) -> int {
    if h.lapsed_ns is None && now > h.settled_ns {
        tax_over(p, h.price, now - h.settled_ns)
    } else {
        0
    }
}

/// The least time whose tax is `due`, at most `elapsed`.
pub open spec fn time_paid(p: Params, price: u128, due: int, elapsed: int) -> int {
    let y = yearly(p, price);
    if y == 0 || due * YEAR_NS + (y - 1) > u128::MAX {
        elapsed
    } else {
        least((due * YEAR_NS + (y - 1)) / y, elapsed)
    }
}

/// A holding with its tax settled up to `now`.
pub open spec fn settled(p: Params, h: Harberger, now: u64) -> Harberger {
    let due = due_at(p, h, now);
    if !(h.lapsed_ns is None && now > h.settled_ns) {
        h
    } else if due <= h.balance {
        Harberger {
            balance: (h.balance - due) as u128,
            settled_ns: (h.settled_ns + time_paid(p, h.price, due, now - h.settled_ns)) as u64,
            ..h
        }
    } else {
        let lapsed = match spent_after(p, h.price, h.balance) {
            Some(ns) => least(h.settled_ns + ns, now as int) as u64,
            None => now,
        };
        Harberger { balance: 0, settled_ns: now, lapsed_ns: Some(lapsed), ..h }
    }
}

/// Whether a holding that has lapsed has nothing left.
pub open spec fn lapsed_empty(h: Harberger) -> bool {
    h.lapsed_ns is Some ==> h.balance == 0
}

/// The tax that settling up to `now` takes.
pub open spec fn taken(p: Params, h: Harberger, now: u64) -> u128 {
    least(due_at(p, h, now), h.balance as int) as u128
}

/// Where a settled holding stands.
pub open spec fn standing(p: Params, h: Harberger, now: u64) -> Status {
    match h.lapsed_ns {
        None => Status::Active,
        Some(t) => if now < capped_ns(t + p.grace_ns) {
            Status::Grace { until_ns: capped_ns(t + p.grace_ns) }
        } else {
            Status::Free
        },
    }
}

/// Where a holding stands once settled up to `now`.
pub open spec fn status_at(p: Params, h: Harberger, now: u64) -> Status {
    standing(p, settled(p, h, now), now)
}

/// Whether the parameters are acceptable.
pub open spec fn params_ok(p: Params) -> bool {
    p.rate_bps <= 10_000 && p.min_price <= MAX_PRICE && p.grace_ns > 0
}

/// Why parameters are refused.
pub open spec fn params_error(p: Params) -> Seq<char> {
    if p.rate_bps > 10_000 {
        "rate_bps above 10000 (100% per year)"@
    } else if p.min_price > MAX_PRICE {
        "min_price above the maximum price of 1000000000000000000"@
    } else {
        "grace_ns is zero: every item would be free at once"@
    }
}

/// What a top-up leaves: the settled holding with the amount added, active
/// again if it had lapsed.
pub open spec fn topped_up(p: Params, h: Harberger, amount: u128, now: u64) -> Harberger {
    let s = settled(p, h, now);
    let added = Harberger { balance: capped(s.balance + amount), ..s };
    if s.lapsed_ns is Some {
        Harberger { lapsed_ns: None, settled_ns: now, ..added }
    } else {
        added
    }
}

/// Whether a top-up is accepted: the holding is not free and the balance
/// after it covers one grace period.
pub open spec fn top_up_ok(p: Params, h: Harberger, amount: u128, now: u64) -> bool {
    &&& status_at(p, h, now) !is Free
    &&& topped_up(p, h, amount, now).balance >= least_deposit(p, h.price)
}

/// Why a top-up is refused.
pub open spec fn top_up_error(p: Params, h: Harberger, now: u64) -> Seq<char> {
    if status_at(p, h, now) is Free {
        "the grace period is over: the item is free"@
    } else {
        "balance after the deposit must cover one grace period of tax: at least "@ + decimal(
            least_deposit(p, h.price) as nat,
        ) + " at this price, "@ + decimal(settled(p, h, now).balance as nat) + " left"@
    }
}

// --- calls into the ic-auction crate ------------------------------------------------

impl Params {
    /// `ic_auction::harberger::Params::check`: a rate of at most 100 percent,
    /// a least price not above the highest, and some grace period.
    #[verifier::external_body]
    pub(crate) fn check(&self) -> (r: Result<(), String>)
        ensures
            r is Ok <==> params_ok(*self),
            r matches Err(e) ==> e@ == params_error(*self),
    {
        let Params { rate_bps, min_price, grace_ns } = *self;
        ic_auction::harberger::Params { rate_bps, min_price, grace_ns }.check()
    }

    /// `ic_auction::harberger::Params::tax_per_year`: the price times the
    /// rate, in basis points, rounded down.
    #[verifier::external_body]
    pub(crate) fn tax_per_year(&self, price: u128) -> (r: u128)
        ensures
            r == yearly(*self, price),
    {
        let Params { rate_bps, min_price, grace_ns } = *self;
        ic_auction::harberger::Params { rate_bps, min_price, grace_ns }.tax_per_year(price)
    }

    /// `ic_auction::harberger::Params::ns_until_spent`: the balance as time at
    /// the yearly tax, None where there is no tax or the product overflows.
    #[verifier::external_body]
    pub(crate) fn ns_until_spent(&self, price: u128, balance: u128) -> (r: Option<u64>)
        ensures
            r == spent_after(*self, price, balance),
    {
        let Params { rate_bps, min_price, grace_ns } = *self;
        ic_auction::harberger::Params { rate_bps, min_price, grace_ns }.ns_until_spent(
            price,
            balance,
        )
    }

    /// `ic_auction::harberger::Params::min_deposit`: the tax of one grace
    /// period.
    #[verifier::external_body]
    pub(crate) fn min_deposit(&self, price: u128) -> (r: u128)
        ensures
            r == least_deposit(*self, price),
    {
        let Params { rate_bps, min_price, grace_ns } = *self;
        ic_auction::harberger::Params { rate_bps, min_price, grace_ns }.min_deposit(price)
    }
}

impl Harberger {
    /// A holding at `price` with `deposit` prepaid from `now` on.
    pub fn new(price: u128, deposit: u128, now: u64) -> (r: Harberger)
        ensures
            r == (Harberger { price, balance: deposit, settled_ns: now, lapsed_ns: None }),
    {
        Harberger { price, balance: deposit, settled_ns: now, lapsed_ns: None }
    }

    /// `ic_auction::harberger::Harberger::settle`: the tax due comes off the
    /// balance, or the balance runs out and the holding lapses. Gives the
    /// settled holding, its status and the tax taken.
    #[verifier::external_body]
    pub(crate) fn settle(&self, p: &Params, now: u64) -> (r: (Harberger, Status, u128))
        ensures
            r.0 == settled(*p, *self, now),
            r.1 == status_at(*p, *self, now),
            r.2 == taken(*p, *self, now),
    {
        let Params { rate_bps, min_price, grace_ns } = *p;
        let Harberger { price, balance, settled_ns, lapsed_ns } = *self;
        let mut h = ic_auction::harberger::Harberger { price, balance, settled_ns, lapsed_ns };
        let q = ic_auction::harberger::Params { rate_bps, min_price, grace_ns };
        let (status, taken) = h.settle(&q, now);
        let ic_auction::harberger::Harberger { price, balance, settled_ns, lapsed_ns } = h;
        let status = match status {
            ic_auction::harberger::Status::Active => Status::Active,
            ic_auction::harberger::Status::Grace { until_ns } => Status::Grace { until_ns },
            ic_auction::harberger::Status::Free => Status::Free,
        };
        (Harberger { price, balance, settled_ns, lapsed_ns }, status, taken)
    }

    /// `ic_auction::harberger::Harberger::top_up`: the amount added to the
    /// settled balance, and the tax that settling took. Refused where the
    /// holding is free or would not cover one grace period.
    #[verifier::external_body]
    pub(crate) fn top_up(&self, p: &Params, amount: u128, now: u64) -> (r: Result<
        (Harberger, u128),
        String,
    >)
        ensures
            r is Ok <==> top_up_ok(*p, *self, amount, now),
            r matches Ok(x) ==> x.0 == topped_up(*p, *self, amount, now) && x.1 == taken(*p, *self, now),
            r matches Err(e) ==> e@ == top_up_error(*p, *self, now),
    {
        let Params { rate_bps, min_price, grace_ns } = *p;
        let Harberger { price, balance, settled_ns, lapsed_ns } = *self;
        let mut h = ic_auction::harberger::Harberger { price, balance, settled_ns, lapsed_ns };
        let q = ic_auction::harberger::Params { rate_bps, min_price, grace_ns };
        let taken = h.top_up(&q, amount, now)?;
        let ic_auction::harberger::Harberger { price, balance, settled_ns, lapsed_ns } = h;
        Ok((Harberger { price, balance, settled_ns, lapsed_ns }, taken))
    }
}

// --- what follows from the rules ----------------------------------------------------

/// The arithmetic of carrying the rounded part of the tax: the time paid
/// is at most the time passed, and what is left of it owes nothing.
proof fn lemma_time_paid(y: int, e: int, due: int)
    requires
        y > 0,
        e >= 0,
        due == (y * e) / (YEAR_NS as int),
    ensures
        ({
            let paid = (due * YEAR_NS + (y - 1)) / y;
            0 <= paid <= e && (y * (e - paid)) / (YEAR_NS as int) == 0
        }),
{
    let n = YEAR_NS as int;
    let x = due * n + (y - 1);
    let paid = x / y;
    assert(due * n <= y * e < due * n + n) by (nonlinear_arith)
        requires
            n > 0,
            due == (y * e) / n,
    ;
    assert(due >= 0) by (nonlinear_arith)
        requires
            due == (y * e) / n,
            y > 0,
            e >= 0,
            n > 0,
    ;
    assert(y * paid <= x < y * paid + y) by (nonlinear_arith)
        requires
            y > 0,
            paid == x / y,
    ;
    assert(y * paid >= due * n);
    assert(paid <= e) by (nonlinear_arith)
        requires
            y > 0,
            y * paid <= due * n + (y - 1),
            due * n <= y * e,
    ;
    assert(paid >= 0) by (nonlinear_arith)
        requires
            y > 0,
            due >= 0,
            n > 0,
            paid == (due * n + (y - 1)) / y,
    ;
    assert(y * (e - paid) == y * e - y * paid) by (nonlinear_arith);
    assert(0 <= y * (e - paid)) by (nonlinear_arith)
        requires
            y > 0,
            paid <= e,
    ;
    assert((y * (e - paid)) / n == 0) by (nonlinear_arith)
        requires
            0 <= y * (e - paid) < n,
    ;
}

/// The yearly tax is an amount.
pub proof fn lemma_yearly(p: Params, price: u128)
    ensures
        0 <= yearly(p, price) <= u128::MAX,
{
    assert(price * p.rate_bps >= 0) by (nonlinear_arith);
}

/// The tax over a time is an amount.
pub proof fn lemma_tax_over(p: Params, price: u128, elapsed: int)
    requires
        elapsed >= 0,
    ensures
        0 <= tax_over(p, price, elapsed) <= u128::MAX,
{
    lemma_yearly(p, price);
    let y = yearly(p, price);
    assert(y * elapsed >= 0) by (nonlinear_arith)
        requires
            y >= 0,
            elapsed >= 0,
    ;
}

/// Settling never runs ahead of the clock nor turns it back, and what
/// leaves the balance is what is taken.
pub proof fn lemma_settled(p: Params, h: Harberger, now: u64)
    ensures
        settled(p, h, now).price == h.price,
        settled(p, h, now).balance + taken(p, h, now) == h.balance,
        h.settled_ns <= settled(p, h, now).settled_ns,
        h.settled_ns <= now ==> settled(p, h, now).settled_ns <= now,
        h.lapsed_ns is Some ==> settled(p, h, now) == h && taken(p, h, now) == 0,
        lapsed_empty(h) ==> lapsed_empty(settled(p, h, now)),
{
    if h.lapsed_ns is None && now > h.settled_ns {
        let e = now - h.settled_ns;
        let y = yearly(p, h.price);
        lemma_yearly(p, h.price);
        lemma_tax_over(p, h.price, e);
        let due = due_at(p, h, now);
        if due <= h.balance && y > 0 && due * YEAR_NS + (y - 1) <= u128::MAX {
            if y * e <= u128::MAX {
                lemma_time_paid(y, e, due);
            } else {
                assert(due * YEAR_NS > u128::MAX) by (nonlinear_arith)
                    requires
                        due == u128::MAX,
                        YEAR_NS == 31_536_000_000_000_000,
                ;
            }
        }
    }
}

/// Settling a second time at the same moment takes nothing and changes
/// nothing but the time up to which tax is settled.
pub proof fn law_settling_twice_takes_nothing(p: Params, h: Harberger, now: u64)
    ensures
        taken(p, settled(p, h, now), now) == 0,
        settled(p, settled(p, h, now), now).balance == settled(p, h, now).balance,
        status_at(p, settled(p, h, now), now) == status_at(p, h, now),
{
    lemma_settled(p, h, now);
    let s = settled(p, h, now);
    lemma_settled(p, s, now);
    if h.lapsed_ns is None && now > h.settled_ns {
        let e = now - h.settled_ns;
        let y = yearly(p, h.price);
        lemma_yearly(p, h.price);
        lemma_tax_over(p, h.price, e);
        let due = due_at(p, h, now);
        if due <= h.balance {
            let paid = time_paid(p, h.price, due, e);
            if y == 0 {
                assert(y * (e - paid) == 0) by (nonlinear_arith)
                    requires
                        y == 0,
                ;
            } else if due * YEAR_NS + (y - 1) <= u128::MAX {
                if y * e <= u128::MAX {
                    lemma_time_paid(y, e, due);
                    assert(now - s.settled_ns == e - paid);
                    assert(y * (e - paid) <= y * e) by (nonlinear_arith)
                        requires
                            y > 0,
                            paid >= 0,
                    ;
                } else {
                    assert(due * YEAR_NS > u128::MAX) by (nonlinear_arith)
                        requires
                            due == u128::MAX,
                            YEAR_NS == 31_536_000_000_000_000,
                    ;
                }
            }
        }
    }
}

/// An accepted top-up leaves an active holding that covers one grace
/// period, so a holding in grace is never kept on less.
pub proof fn law_top_up_covers_grace(p: Params, h: Harberger, amount: u128, now: u64)
    requires
        top_up_ok(p, h, amount, now),
    ensures
        topped_up(p, h, amount, now).lapsed_ns is None,
        topped_up(p, h, amount, now).balance >= least_deposit(p, h.price),
        topped_up(p, h, amount, now).price == h.price,
{
    lemma_settled(p, h, now);
}

/// More time owes no less tax.
proof fn lemma_tax_grows(p: Params, price: u128, a: int, b: int)
    requires
        0 <= a <= b,
    ensures
        tax_over(p, price, a) <= tax_over(p, price, b),
{
    lemma_yearly(p, price);
    lemma_tax_over(p, price, a);
    let y = yearly(p, price);
    assert(y * a <= y * b) by (nonlinear_arith)
        requires
            y >= 0,
            a <= b,
    ;
    assert(y * a >= 0) by (nonlinear_arith)
        requires
            y >= 0,
            a >= 0,
    ;
    if y * b <= u128::MAX {
        assert((y * a) / (YEAR_NS as int) <= (y * b) / (YEAR_NS as int)) by (nonlinear_arith)
            requires
                y * a <= y * b,
                YEAR_NS == 31_536_000_000_000_000,
        ;
    }
}

/// A holding whose grace period is over stays free: no later moment finds it
/// held again.
pub proof fn law_free_stays_free(p: Params, h: Harberger, now: u64, later: u64)
    requires
        p.grace_ns > 0,
        now <= later,
        status_at(p, h, now) is Free,
    ensures
        status_at(p, h, later) is Free,
{
    lemma_settled(p, h, now);
    lemma_settled(p, h, later);
    if h.lapsed_ns is None {
        lemma_tax_grows(p, h.price, now - h.settled_ns, later - h.settled_ns);
        assert(due_at(p, h, now) > h.balance);
        assert(due_at(p, h, later) > h.balance);
    }
}

/// With acceptable parameters the tax of one grace period on a price in
/// range is far below the largest amount.
pub proof fn lemma_grace_is_small(p: Params, price: u128)
    requires
        params_ok(p),
        price <= MAX_PRICE,
    ensures
        0 <= least_deposit(p, price) <= 0x1_0000_0000_0000_0000_0000,
{
    lemma_tax_over(p, price, p.grace_ns as int);
    let y = yearly(p, price);
    let g = p.grace_ns as int;
    assert(price * p.rate_bps <= 10_000_000_000_000_000_000_000) by (nonlinear_arith)
        requires
            price <= 1_000_000_000_000_000_000,
            p.rate_bps <= 10_000,
    ;
    assert(price * p.rate_bps >= 0) by (nonlinear_arith);
    assert(0 <= y <= 1_000_000_000_000_000_000);
    assert(0 <= y * g <= 1_000_000_000_000_000_000 * 0xffff_ffff_ffff_ffff) by (nonlinear_arith)
        requires
            0 <= y <= 1_000_000_000_000_000_000,
            0 <= g <= 0xffff_ffff_ffff_ffff,
    ;
    let x = y * g;
    assert(x <= u128::MAX);
    assert(x / 31_536_000_000_000_000 <= 0x1_0000_0000_0000_0000_0000) by (nonlinear_arith)
        requires
            0 <= x <= 1_000_000_000_000_000_000 * 0xffff_ffff_ffff_ffff,
    ;
    assert(YEAR_NS as int == 31_536_000_000_000_000);
}

} // verus!
