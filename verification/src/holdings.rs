//! How flat names stand: one holding settled to now, and the names running
//! out soon.

use vstd::prelude::*;

use crate::harberger;
use crate::harberger::{params_of, ConfigState};
use crate::maps::{values_in_order, views};
use crate::market::{
    buy_fault, claim_fault, law_free_names_can_be_claimed, law_held_names_can_be_bought,
};
use crate::names::{is_flat_name, is_scoped_name};
use crate::order::{lemma_texts_listed, text_before, texts_in_order};
use crate::principal::{anonymous, Principal};
use crate::record::{RecordState, Target, TargetState};
use crate::registry::{good_record, sound, Registry, RegistryState};
use crate::resolve::{in_hands, keyed_by_name};
use crate::store;
use crate::store::{Store, StoreState};
use crate::tax::{
    capped_ns, least_deposit, lemma_settled, settled, spent_after, status_at, taken, yearly,
    Harberger, Status, MAX_PRICE,
};
use crate::text::seen;

verus! {

// --- one holding ------------------------------------------------------------------------

/// How a flat name stands, settled to now.
pub struct FlatStatus {
    pub name: String,
    pub owner: Principal,
    pub target: Target,
    pub price: u128,
    /// Settled to now.
    pub balance: u128,
    pub status: Status,
    pub tax_per_year: u128,
    /// The least a claim or buy at `price` must deposit.
    pub min_deposit: u128,
    pub changed_hands_ns: u64,
}

/// Whether `f` tells how the record of a flat name stands at `now`.
pub open spec fn tells_status(f: FlatStatus, c: ConfigState, r: RecordState, now: u64) -> bool {
    let p = params_of(c);
    let h = r.flat->0;
    &&& f.name@ == r.name
    &&& f.owner@ == r.owner
    &&& f.target@ == r.target
    &&& f.price == h.price
    &&& f.balance == settled(p, h, now).balance
    &&& f.status == status_at(p, h, now)
    &&& f.tax_per_year == yearly(p, h.price)
    &&& f.min_deposit == least_deposit(p, h.price)
    &&& f.changed_hands_ns == r.changed_hands_ns
}

/// Whether there is a flat name to tell of: one with a holding, be it free.
pub open spec fn has_status(s: StoreState, name: Seq<char>) -> bool {
    s.records.contains_key(name) && s.records[name].flat is Some
}

impl Registry {
    /// How a flat name stands at `now`, None where there is no such name.
    pub fn flat_status(&self, name: &str, now: u64) -> (r: Option<FlatStatus>)
        ensures
            r is Some <==> has_status(self@.store, name@),
            r matches Some(f) ==> tells_status(
                f,
                self@.store.settings.config,
                self@.store.records[name@],
                now,
            ),
    {
        let cfg = harberger::config(&self.store);
        let mut r = match store::get_record(&self.store, name) {
            Some(r) => r,
            None => {
                return None;
            },
        };
        let (status, _) = harberger::settle_record(&cfg, &mut r, now);
        let h = match r.flat {
            Some(h) => h,
            None => {
                return None;
            },
        };
        proof {
            lemma_settled(params_of(cfg@), self@.store.records[name@].flat->0, now);
        }
        Some(
            FlatStatus {
                name: r.name,
                owner: r.owner,
                target: r.target,
                price: h.price,
                balance: h.balance,
                status,
                tax_per_year: harberger::tax_per_year(&cfg, h.price),
                min_deposit: harberger::min_deposit(&cfg, h.price),
                changed_hands_ns: r.changed_hands_ns,
            },
        )
    }
}

// --- names running out ----------------------------------------------------------------------

/// A flat name close to running out, for holders and their tooling.
#[derive(Debug)]
pub struct Expiring {
    pub name: String,
    pub owner: Principal,
    pub status: Status,
    /// When the balance runs out (active) or the grace period ends (grace).
    pub deadline_ns: u64,
    /// Settled to now.
    pub balance: u128,
    pub tax_per_year: u128,
}

/// A name running out by its contents.
#[verifier::ext_equal]
pub struct ExpiringState {
    pub name: Seq<char>,
    pub owner: Seq<u8>,
    pub status: Status,
    pub deadline_ns: u64,
    pub balance: u128,
    pub tax_per_year: u128,
}

impl View for Expiring {
    type V = ExpiringState;

    open spec fn view(&self) -> ExpiringState {
        ExpiringState {
            name: self.name@,
            owner: self.owner@,
            status: self.status,
            deadline_ns: self.deadline_ns,
            balance: self.balance,
            tax_per_year: self.tax_per_year,
        }
    }
}

/// When a holding runs out: its balance while it is active, its grace
/// period while it is in grace. A free one is gone, and one without tax
/// never runs out.
pub open spec fn deadline_of(c: ConfigState, h: Harberger, now: u64) -> Option<u64> {
    let p = params_of(c);
    let s = settled(p, h, now);
    match status_at(p, h, now) {
        Status::Active => match spent_after(p, s.price, s.balance) {
            Some(ns) => Some(capped_ns(now + ns)),
            None => None,
        },
        Status::Grace { until_ns } => Some(until_ns),
        Status::Free => None,
    }
}

/// The entry of a record that runs out within `within_ns` of now, if it
/// does.
pub open spec fn expiring_of(c: ConfigState, r: RecordState, within_ns: u64, now: u64) -> Option<
    ExpiringState,
> {
    match r.flat {
        None => None,
        Some(h) => match deadline_of(c, h, now) {
            Some(deadline) if deadline <= now || deadline - now <= within_ns => Some(
                ExpiringState {
                    name: r.name,
                    owner: r.owner,
                    status: status_at(params_of(c), h, now),
                    deadline_ns: deadline,
                    balance: settled(params_of(c), h, now).balance,
                    tax_per_year: yearly(params_of(c), h.price) as u128,
                },
            ),
            _ => None,
        },
    }
}

/// The entries of records that run out, in the records' order.
pub open spec fn expiring_list(
    c: ConfigState,
    records: Seq<RecordState>,
    within_ns: u64,
    now: u64,
) -> Seq<ExpiringState>
    decreases records.len(),
{
    if records.len() == 0 {
        Seq::empty()
    } else {
        let rest = expiring_list(c, records.drop_last(), within_ns, now);
        match expiring_of(c, records.last(), within_ns, now) {
            Some(e) => rest.push(e),
            None => rest,
        }
    }
}

/// `s` with `e` put before the entries at its end that have a later
/// deadline.
pub open spec fn put_by_deadline(s: Seq<ExpiringState>, e: ExpiringState) -> Seq<ExpiringState>
    decreases s.len(),
{
    if s.len() > 0 && e.deadline_ns < s.last().deadline_ns {
        put_by_deadline(s.drop_last(), e).push(s.last())
    } else {
        s.push(e)
    }
}

/// Entries in the order of their deadlines, those with the same deadline in
/// the order in which they stood.
pub open spec fn by_deadline(s: Seq<ExpiringState>) -> Seq<ExpiringState>
    decreases s.len(),
{
    if s.len() == 0 {
        s
    } else {
        put_by_deadline(by_deadline(s.drop_last()), s.last())
    }
}

/// Put an entry in its place among sorted ones.
fn place(s: Vec<Expiring>, e: Expiring) -> (r: Vec<Expiring>)
    ensures
        views(r@) == put_by_deadline(views(s@), e@),
    decreases s@.len(),
{
    let mut s = s;
    let ghost all = views(s@);
    let n: usize = s.len();
    if n > 0 {
        assert(all.last() == s@[n - 1]@);
        if e.deadline_ns < s[n - 1].deadline_ns {
            let end = s.pop().unwrap();
            assert(views(s@) =~= all.drop_last());
            let mut r = place(s, e);
            let ghost before = r@;
            r.push(end);
            assert(views(r@) =~= views(before).push(all.last()));
            return r;
        }
    }
    let ghost before = s@;
    s.push(e);
    assert(views(s@) =~= views(before).push(e@));
    s
}

/// Flat names whose balance runs out, or whose grace period ends, within
/// `within_ns` of now. Free names are not listed: they are gone. Sorted by
/// deadline.
pub fn expiring_inner(store: &Store, within_ns: u64, now: u64) -> (r: Vec<Expiring>)
    ensures
        views(r@) == by_deadline(
            expiring_list(
                store@.settings.config,
                values_in_order(store@.records),
                within_ns,
                now,
            ),
        ),
        lists_expiring(store@, within_ns, now, views(r@)),
{
    store.records.facts();
    proof {
        law_expiring_lists_what_runs_out(store@, within_ns, now);
    }
    let cfg = harberger::config(store);
    let records = store::for_each_record(store);
    let ghost all = values_in_order(store@.records);
    let ghost c = cfg@;
    let mut out: Vec<Expiring> = Vec::new();
    let mut i: usize = 0;
    assert(views(out@) =~= by_deadline(expiring_list(c, all.take(0), within_ns, now)));
    while i < records.len()
        invariant
            i <= records@.len(),
            c == cfg@,
            views(records@) == all,
            views(out@) == by_deadline(expiring_list(c, all.take(i as int), within_ns, now)),
        decreases records.len() - i,
    {
        let r = &records[i];
        let ghost now_list = all.take(i + 1);
        proof {
            assert(r@ == views(records@)[i as int]);
            assert(now_list.drop_last() =~= all.take(i as int));
            assert(now_list.last() == r@);
        }
        let ghost past = expiring_list(c, all.take(i as int), within_ns, now);
        let found = match r.flat {
            None => None,
            Some(h) => {
                let mut h = h;
                let ghost was = h;
                let (status, _) = harberger::settle(&cfg, &mut h, now);
                proof {
                    lemma_settled(params_of(c), was, now);
                }
                let deadline = match status {
                    Status::Active => match harberger::ns_until_spent(&cfg, h.price, h.balance) {
                        Some(ns) => Some(now.saturating_add(ns)),
                        None => None,
                    },
                    Status::Grace { until_ns } => Some(until_ns),
                    Status::Free => None,
                };
                match deadline {
                    Some(deadline_ns) => {
                        if deadline_ns.saturating_sub(now) <= within_ns {
                            Some(
                                Expiring {
                                    name: r.name.clone(),
                                    owner: r.owner.clone(),
                                    status,
                                    deadline_ns,
                                    balance: h.balance,
                                    tax_per_year: harberger::tax_per_year(&cfg, h.price),
                                },
                            )
                        } else {
                            None
                        }
                    },
                    None => None,
                }
            },
        };
        assert(seen(found) == expiring_of(c, r@, within_ns, now));
        match found {
            Some(e) => {
                assert(past.push(e@).drop_last() =~= past);
                out = place(out, e);
            },
            None => {},
        }
        i += 1;
    }
    assert(all.take(i as int) =~= all);
    out
}

impl Registry {
    /// Flat names running out within `within_ns` of `now`, sorted by
    /// deadline.
    pub fn expiring(&self, within_ns: u64, now: u64) -> (r: Vec<Expiring>)
        ensures
            views(r@) == by_deadline(
                expiring_list(
                    self@.store.settings.config,
                    values_in_order(self@.store.records),
                    within_ns,
                    now,
                ),
            ),
            lists_expiring(self@.store, within_ns, now, views(r@)),
    {
        expiring_inner(&self.store, within_ns, now)
    }
}

/// Placing an entry keeps the others, adds it, and keeps deadlines in
/// order.
proof fn lemma_put_by_deadline(s: Seq<ExpiringState>, e: ExpiringState)
    requires
        forall|i: int, j: int|
            0 <= i < j < s.len() ==> (#[trigger] s[i]).deadline_ns <= (#[trigger] s[j]).deadline_ns,
    ensures
        put_by_deadline(s, e).len() == s.len() + 1,
        forall|x: ExpiringState| #[trigger]
            put_by_deadline(s, e).contains(x) <==> x == e || s.contains(x),
        forall|i: int, j: int|
            0 <= i < j < put_by_deadline(s, e).len() ==> (#[trigger] put_by_deadline(
                s,
                e,
            )[i]).deadline_ns <= (#[trigger] put_by_deadline(s, e)[j]).deadline_ns,
    decreases s.len(),
{
    let out = put_by_deadline(s, e);
    if s.len() > 0 && e.deadline_ns < s.last().deadline_ns {
        let rest = s.drop_last();
        let last = s.last();
        assert forall|i: int, j: int| 0 <= i < j < rest.len() implies (
        #[trigger] rest[i]).deadline_ns <= (#[trigger] rest[j]).deadline_ns by {
            assert(rest[i] == s[i] && rest[j] == s[j]);
        }
        lemma_put_by_deadline(rest, e);
        let inner = put_by_deadline(rest, e);
        assert(s =~= rest.push(last));
        assert forall|x: ExpiringState| #[trigger] out.contains(x) <==> x == e || s.contains(x) by {
            lemma_push_has(inner, last, x);
            lemma_push_has(rest, last, x);
        }
        assert forall|i: int, j: int| 0 <= i < j < out.len() implies (
        #[trigger] out[i]).deadline_ns <= (#[trigger] out[j]).deadline_ns by {
            if j == inner.len() {
                assert(inner.contains(inner[i]));
                if inner[i] != e {
                    assert(rest.contains(inner[i]));
                    let k = choose|k: int| 0 <= k < rest.len() && rest[k] == inner[i];
                    assert(s[k] == rest[k]);
                    assert(s[k].deadline_ns <= s[s.len() - 1].deadline_ns);
                }
            } else {
                assert(out[i] == inner[i] && out[j] == inner[j]);
            }
        }
    } else {
        assert forall|x: ExpiringState| #[trigger] out.contains(x) <==> x == e || s.contains(x) by {
            lemma_push_has(s, e, x);
        }
        assert forall|i: int, j: int| 0 <= i < j < out.len() implies (
        #[trigger] out[i]).deadline_ns <= (#[trigger] out[j]).deadline_ns by {
            assert(out[i] == s[i]);
            if j == s.len() {
                if i < s.len() - 1 {
                    assert(s[i].deadline_ns <= s[s.len() - 1].deadline_ns);
                }
            } else {
                assert(out[j] == s[j]);
            }
        }
    }
}

/// What a list with one more element holds.
proof fn lemma_push_has(s: Seq<ExpiringState>, x: ExpiringState, e: ExpiringState)
    ensures
        s.push(x).contains(e) <==> e == x || s.contains(e),
{
    if s.contains(e) {
        let i = choose|i: int| 0 <= i < s.len() && s[i] == e;
        assert(s.push(x)[i] == e);
    }
    if e == x {
        assert(s.push(x)[s.len() as int] == e);
    }
    if s.push(x).contains(e) && e != x {
        let i = choose|i: int| 0 <= i < s.push(x).len() && s.push(x)[i] == e;
        assert(s[i] == e);
    }
}

/// The names running out are listed by deadline, and sorting loses none.
pub proof fn law_expiring_by_deadline(s: Seq<ExpiringState>)
    ensures
        by_deadline(s).len() == s.len(),
        forall|x: ExpiringState| #[trigger] by_deadline(s).contains(x) <==> s.contains(x),
        forall|i: int, j: int|
            0 <= i < j < by_deadline(s).len() ==> (#[trigger] by_deadline(s)[i]).deadline_ns <= (
            #[trigger] by_deadline(s)[j]).deadline_ns,
    decreases s.len(),
{
    if s.len() > 0 {
        let rest = s.drop_last();
        let last = s.last();
        law_expiring_by_deadline(rest);
        lemma_put_by_deadline(by_deadline(rest), last);
        assert(s =~= rest.push(last));
        assert forall|x: ExpiringState| #[trigger] by_deadline(s).contains(x) <==> s.contains(
            x,
        ) by {
            lemma_push_has(rest, last, x);
        }
    }
}

/// Whether an entry tells of a record that runs out within `within_ns` of
/// now: while it is active, when its balance is spent on tax, and while it
/// is in grace, when that ends.
pub open spec fn runs_out(
    c: ConfigState,
    r: RecordState,
    within_ns: u64,
    now: u64,
    e: ExpiringState,
) -> bool {
    let p = params_of(c);
    &&& e.name == r.name
    &&& e.owner == r.owner
    &&& r.flat matches Some(h) && {
        &&& e.status == status_at(p, h, now)
        &&& e.balance == settled(p, h, now).balance
        &&& e.tax_per_year == yearly(p, h.price)
        &&& match e.status {
            Status::Active => spent_after(p, h.price, e.balance) matches Some(ns) && e.deadline_ns
                == capped_ns(now + ns),
            Status::Grace { until_ns } => e.deadline_ns == until_ns,
            Status::Free => false,
        }
    }
    &&& e.deadline_ns <= now + within_ns
}

/// Whether a list is of the names running out: all of them, each once, the
/// earliest deadline first and names in order where deadlines are the same.
pub open spec fn lists_expiring(
    s: StoreState,
    within_ns: u64,
    now: u64,
    list: Seq<ExpiringState>,
) -> bool {
    &&& forall|e: ExpiringState| #[trigger]
        list.contains(e) <==> s.records.contains_key(e.name) && runs_out(
            s.settings.config,
            s.records[e.name],
            within_ns,
            now,
            e,
        )
    &&& forall|i: int, j: int|
        0 <= i < j < list.len() ==> sooner(#[trigger] list[i], #[trigger] list[j])
}

/// Whether an entry is listed before another.
pub open spec fn sooner(a: ExpiringState, b: ExpiringState) -> bool {
    a.deadline_ns < b.deadline_ns || (a.deadline_ns == b.deadline_ns && text_before(a.name, b.name))
}

/// Placing an entry whose name comes after all others keeps entries in
/// order.
proof fn lemma_put_sooner(s: Seq<ExpiringState>, e: ExpiringState)
    requires
        forall|i: int, j: int| 0 <= i < j < s.len() ==> sooner(#[trigger] s[i], #[trigger] s[j]),
        forall|i: int| 0 <= i < s.len() ==> text_before((#[trigger] s[i]).name, e.name),
    ensures
        forall|x: ExpiringState| #[trigger]
            put_by_deadline(s, e).contains(x) <==> x == e || s.contains(x),
        forall|i: int, j: int|
            0 <= i < j < put_by_deadline(s, e).len() ==> sooner(
                #[trigger] put_by_deadline(s, e)[i],
                #[trigger] put_by_deadline(s, e)[j],
            ),
    decreases s.len(),
{
    let out = put_by_deadline(s, e);
    if s.len() > 0 && e.deadline_ns < s.last().deadline_ns {
        let rest = s.drop_last();
        let last = s.last();
        assert forall|i: int, j: int| 0 <= i < j < rest.len() implies sooner(
            #[trigger] rest[i],
            #[trigger] rest[j],
        ) by {
            assert(rest[i] == s[i] && rest[j] == s[j]);
        }
        assert forall|i: int| 0 <= i < rest.len() implies text_before(
            (#[trigger] rest[i]).name,
            e.name,
        ) by {
            assert(rest[i] == s[i]);
        }
        lemma_put_sooner(rest, e);
        let inner = put_by_deadline(rest, e);
        assert(s =~= rest.push(last));
        assert forall|x: ExpiringState| #[trigger] out.contains(x) <==> x == e || s.contains(x) by {
            lemma_push_has(inner, last, x);
            lemma_push_has(rest, last, x);
        }
        assert forall|i: int, j: int| 0 <= i < j < out.len() implies sooner(
            #[trigger] out[i],
            #[trigger] out[j],
        ) by {
            if j == inner.len() {
                assert(inner.contains(inner[i]));
                if inner[i] != e {
                    assert(rest.contains(inner[i]));
                    let k = choose|k: int| 0 <= k < rest.len() && rest[k] == inner[i];
                    assert(s[k] == rest[k]);
                    assert(sooner(s[k], s[s.len() - 1]));
                }
            } else {
                assert(out[i] == inner[i] && out[j] == inner[j]);
            }
        }
    } else {
        assert forall|x: ExpiringState| #[trigger] out.contains(x) <==> x == e || s.contains(x) by {
            lemma_push_has(s, e, x);
        }
        assert forall|i: int, j: int| 0 <= i < j < out.len() implies sooner(
            #[trigger] out[i],
            #[trigger] out[j],
        ) by {
            assert(out[i] == s[i]);
            if j == s.len() {
                assert(text_before(s[i].name, e.name));
                if i < s.len() - 1 {
                    assert(sooner(s[i], s[s.len() - 1]));
                }
            } else {
                assert(out[j] == s[j]);
            }
        }
    }
}

/// What the entries of records in name order are, once in order.
proof fn lemma_expiring(c: ConfigState, records: Seq<RecordState>, within_ns: u64, now: u64)
    requires
        forall|i: int, j: int|
            0 <= i < j < records.len() ==> text_before(
                (#[trigger] records[i]).name,
                (#[trigger] records[j]).name,
            ),
    ensures
        ({
            let list = by_deadline(expiring_list(c, records, within_ns, now));
            &&& forall|e: ExpiringState| #[trigger]
                list.contains(e) <==> exists|i: int|
                    0 <= i < records.len() && runs_out(
                        c,
                        #[trigger] records[i],
                        within_ns,
                        now,
                        e,
                    )
            &&& forall|i: int, j: int|
                0 <= i < j < list.len() ==> sooner(#[trigger] list[i], #[trigger] list[j])
        }),
    decreases records.len(),
{
    let list = by_deadline(expiring_list(c, records, within_ns, now));
    if records.len() > 0 {
        let rest = records.drop_last();
        let last = records.last();
        let n = records.len() - 1;
        assert forall|i: int, j: int| 0 <= i < j < rest.len() implies text_before(
            (#[trigger] rest[i]).name,
            (#[trigger] rest[j]).name,
        ) by {
            assert(rest[i] == records[i] && rest[j] == records[j]);
        }
        lemma_expiring(c, rest, within_ns, now);
        let entries = expiring_list(c, rest, within_ns, now);
        let past = by_deadline(entries);
        if last.flat is Some {
            lemma_settled(params_of(c), last.flat->0, now);
            crate::tax::lemma_yearly(params_of(c), last.flat->0.price);
        }
        let found = expiring_of(c, last, within_ns, now);
        assert forall|e: ExpiringState| runs_out(c, last, within_ns, now, e) <==> found == Some(
            e,
        ) by {}
        assert forall|i: int| 0 <= i < past.len() implies text_before(
            (#[trigger] past[i]).name,
            last.name,
        ) by {
            assert(past.contains(past[i]));
            let k = choose|k: int|
                0 <= k < rest.len() && runs_out(c, #[trigger] rest[k], within_ns, now, past[i]);
            assert(rest[k] == records[k]);
            assert(text_before(records[k].name, records[n].name));
        }
        if found is Some {
            let e = found->0;
            assert(entries.push(e).drop_last() =~= entries);
            assert(entries.push(e).last() == e);
            lemma_put_sooner(past, e);
        }
        assert forall|e: ExpiringState| #[trigger] list.contains(e) <==> exists|i: int|
            0 <= i < records.len() && runs_out(c, #[trigger] records[i], within_ns, now, e) by {
            if past.contains(e) {
                let k = choose|k: int|
                    0 <= k < rest.len() && runs_out(c, #[trigger] rest[k], within_ns, now, e);
                assert(rest[k] == records[k]);
            }
            if found == Some(e) {
                assert(runs_out(c, records[n], within_ns, now, e));
            }
            if exists|i: int|
                0 <= i < records.len() && runs_out(c, #[trigger] records[i], within_ns, now, e) {
                let k = choose|k: int|
                    0 <= k < records.len() && runs_out(c, #[trigger] records[k], within_ns, now, e);
                if k < rest.len() {
                    assert(rest[k] == records[k]);
                }
            }
        }
    }
}

/// The names running out are exactly those whose balance or grace period
/// ends within the time asked, whatever their order in the registry.
pub proof fn law_expiring_lists_what_runs_out(s: StoreState, within_ns: u64, now: u64)
    requires
        keyed_by_name(s),
        s.records.dom().finite(),
    ensures
        lists_expiring(
            s,
            within_ns,
            now,
            by_deadline(expiring_list(s.settings.config, values_in_order(s.records), within_ns, now)),
        ),
{
    let c = s.settings.config;
    let records = values_in_order(s.records);
    let names = texts_in_order(s.records.dom());
    lemma_texts_listed(s.records.dom());
    assert forall|i: int| 0 <= i < records.len() implies (#[trigger] records[i]).name == names[i]
        && s.records.contains_key(names[i]) && records[i] == s.records[names[i]] by {
        assert(s.records.dom().contains(names[i]));
    }
    assert forall|i: int, j: int| 0 <= i < j < records.len() implies text_before(
        (#[trigger] records[i]).name,
        (#[trigger] records[j]).name,
    ) by {
        assert(text_before(names[i], names[j]));
    }
    lemma_expiring(c, records, within_ns, now);
    let list = by_deadline(expiring_list(c, records, within_ns, now));
    assert forall|e: ExpiringState| #[trigger] list.contains(e) <==> s.records.contains_key(e.name)
        && runs_out(c, s.records[e.name], within_ns, now, e) by {
        if list.contains(e) {
            let k = choose|k: int|
                0 <= k < records.len() && runs_out(c, #[trigger] records[k], within_ns, now, e);
            assert(records[k] == s.records[e.name]);
        }
        if s.records.contains_key(e.name) && runs_out(c, s.records[e.name], within_ns, now, e) {
            assert(s.records.dom().contains(e.name));
            let k = choose|k: int| 0 <= k < names.len() && names[k] == e.name;
            assert(runs_out(c, records[k], within_ns, now, e));
        }
    }
}

/// Every flat name with a record is told of, also once it is free, and no
/// scoped name is.
pub proof fn law_every_flat_name_is_told(s: RegistryState, name: Seq<char>)
    requires
        sound(s),
    ensures
        has_status(s.store, name) <==> s.store.records.contains_key(name) && is_flat_name(name),
{
    if s.store.records.contains_key(name) {
        assert(good_record(s.store.handles, name, s.store.records[name]));
        if is_flat_name(name) {
            crate::names::lemma_segment_no_slash(name);
        }
    }
}

/// What is told of a flat name is what it takes: one told to be free can be
/// claimed at the told price with the told deposit, one told to be held can
/// be bought at that price, and the balance is what settling leaves.
pub proof fn law_told_status_is_what_it_takes(
    s: RegistryState,
    name: Seq<char>,
    f: FlatStatus,
    caller: Seq<u8>,
    target: TargetState,
    now: u64,
)
    requires
        sound(s),
        s.store.records.contains_key(name),
        s.store.records[name].flat is Some,
        tells_status(f, s.store.settings.config, s.store.records[name], now),
        is_flat_name(name),
        caller != anonymous(),
        target matches TargetState::Alias(to) && is_scoped_name(to),
        s.store.settings.config.min_price <= f.price <= MAX_PRICE,
    ensures
        ({
            let r = s.store.records[name];
            let c = s.store.settings.config;
            &&& f.name@ == name && f.owner@ == r.owner && f.target@ == r.target
            &&& f.changed_hands_ns == r.changed_hands_ns
            &&& f.balance + taken(params_of(c), r.flat->0, now) == r.flat->0.balance
            &&& f.status is Free <==> !in_hands(s.store, r, now)
            &&& f.tax_per_year == yearly(params_of(c), r.flat->0.price)
            &&& f.status is Free && c.flat_names_open ==> claim_fault(
                s.store,
                caller,
                name,
                target,
                f.price,
                f.min_deposit,
                now,
            ) is None
            &&& f.min_deposit > 0 ==> claim_fault(
                s.store,
                caller,
                name,
                target,
                f.price,
                (f.min_deposit - 1) as u128,
                now,
            ) is Some
            &&& f.status !is Free && f.owner@ != caller ==> buy_fault(
                s.store,
                caller,
                name,
                target,
                f.price,
                f.min_deposit,
                f.price,
                now,
            ) is None
            &&& f.price > 0 ==> buy_fault(
                s.store,
                caller,
                name,
                target,
                f.price,
                f.min_deposit,
                (f.price - 1) as u128,
                now,
            ) is Some
        }),
{
    let r = s.store.records[name];
    let c = s.store.settings.config;
    assert(good_record(s.store.handles, name, r));
    lemma_settled(params_of(c), r.flat->0, now);
    law_free_names_can_be_claimed(s, caller, name, target, f.price, f.min_deposit, now);
    law_held_names_can_be_bought(s, caller, name, target, f.price, f.min_deposit, f.price, now);
}

} // verus!
