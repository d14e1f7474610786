//! What the JSON answers of the HTTP gateway hold.
//!
//! Timestamps and amounts are decimal strings: nanoseconds since the epoch
//! and cycles exceed 2^53, so a JSON number would be rounded by JavaScript
//! and the client could no longer rebuild the canonical bytes that the
//! witness commits to.

use vstd::prelude::*;

use crate::certify::{base64_of, base64_text};
use crate::directory::{Hit, HitState, SearchResult};
use crate::holdings::{Expiring, ExpiringState};
use crate::maps::views;
use crate::principal::principal_text;
use crate::record::{
    canonical_text, head_lines, record_lines, target_text, text_line, time_lines, unlines, Record,
    RecordState, Target, TargetState,
};
use crate::resolve::Resolved;
use crate::tax::{Harberger, Status};
use crate::text::{copy_pairs, copy_texts, decimal, decimal_text, pairs, seen, texts};

verus! {

// --- records ------------------------------------------------------------------------------

/// A target.
#[derive(Debug, PartialEq, Eq)]
pub enum JsonTarget {
    Address(String),
    Alias(String),
}

/// A target by its contents.
#[verifier::ext_equal]
pub enum JsonTargetState {
    Address(Seq<char>),
    Alias(Seq<char>),
}

impl View for JsonTarget {
    type V = JsonTargetState;

    open spec fn view(&self) -> JsonTargetState {
        match self {
            JsonTarget::Address(p) => JsonTargetState::Address(p@),
            JsonTarget::Alias(n) => JsonTargetState::Alias(n@),
        }
    }
}

/// A target as JSON shows it.
pub open spec fn json_target(t: TargetState) -> JsonTargetState {
    match t {
        TargetState::Address(p) => JsonTargetState::Address(principal_text(p)),
        TargetState::Alias(n) => JsonTargetState::Alias(n),
    }
}

impl JsonTarget {
    /// A target as JSON shows it.
    pub fn of(t: &Target) -> (r: JsonTarget)
        ensures
            r@ == json_target(t@),
    {
        match t {
            Target::Address(p) => JsonTarget::Address(p.to_text()),
            Target::Alias(n) => JsonTarget::Alias(n.clone()),
        }
    }
}

/// The holding of a flat name.
#[derive(Debug, PartialEq, Eq)]
pub struct JsonHarberger {
    pub price: String,
    pub balance: String,
    pub settled_ns: String,
    pub lapsed_ns: Option<String>,
}

/// A holding by its contents.
#[verifier::ext_equal]
pub struct JsonHarbergerState {
    pub price: Seq<char>,
    pub balance: Seq<char>,
    pub settled_ns: Seq<char>,
    pub lapsed_ns: Option<Seq<char>>,
}

impl View for JsonHarberger {
    type V = JsonHarbergerState;

    open spec fn view(&self) -> JsonHarbergerState {
        JsonHarbergerState {
            price: self.price@,
            balance: self.balance@,
            settled_ns: self.settled_ns@,
            lapsed_ns: seen(self.lapsed_ns),
        }
    }
}

/// A holding as JSON shows it.
pub open spec fn json_harberger(h: Harberger) -> JsonHarbergerState {
    JsonHarbergerState {
        price: decimal(h.price as nat),
        balance: decimal(h.balance as nat),
        settled_ns: decimal(h.settled_ns as nat),
        lapsed_ns: match h.lapsed_ns {
            Some(ns) => Some(decimal(ns as nat)),
            None => None,
        },
    }
}

impl JsonHarberger {
    /// A holding as JSON shows it.
    pub fn of(h: &Harberger) -> (r: JsonHarberger)
        ensures
            r@ == json_harberger(*h),
    {
        JsonHarberger {
            price: decimal_text(h.price),
            balance: decimal_text(h.balance),
            settled_ns: decimal_text(h.settled_ns as u128),
            lapsed_ns: match h.lapsed_ns {
                Some(ns) => Some(decimal_text(ns as u128)),
                None => None,
            },
        }
    }
}

/// A record.
#[derive(Debug, PartialEq, Eq)]
pub struct JsonRecord {
    pub name: String,
    pub owner: String,
    pub target: JsonTarget,
    pub text: Vec<(String, String)>,
    pub created_ns: String,
    pub updated_ns: String,
    pub changed_hands_ns: String,
    /// What a flat name pointed at before it last changed hands.
    pub previous_target: Option<JsonTarget>,
    /// Flat names only; the four Harberger lines of the canonical form.
    pub flat: Option<JsonHarberger>,
}

/// A record by its contents.
#[verifier::ext_equal]
pub struct JsonRecordState {
    pub name: Seq<char>,
    pub owner: Seq<char>,
    pub target: JsonTargetState,
    pub text: Seq<(Seq<char>, Seq<char>)>,
    pub created_ns: Seq<char>,
    pub updated_ns: Seq<char>,
    pub changed_hands_ns: Seq<char>,
    pub previous_target: Option<JsonTargetState>,
    pub flat: Option<JsonHarbergerState>,
}

impl View for JsonRecord {
    type V = JsonRecordState;

    open spec fn view(&self) -> JsonRecordState {
        JsonRecordState {
            name: self.name@,
            owner: self.owner@,
            target: self.target@,
            text: pairs(self.text@),
            created_ns: self.created_ns@,
            updated_ns: self.updated_ns@,
            changed_hands_ns: self.changed_hands_ns@,
            previous_target: seen(self.previous_target),
            flat: seen(self.flat),
        }
    }
}

/// A record as JSON shows it.
pub open spec fn json_record(r: RecordState) -> JsonRecordState {
    JsonRecordState {
        name: r.name,
        owner: principal_text(r.owner),
        target: json_target(r.target),
        text: r.text,
        created_ns: decimal(r.created_ns as nat),
        updated_ns: decimal(r.updated_ns as nat),
        changed_hands_ns: decimal(r.changed_hands_ns as nat),
        previous_target: match r.previous_target {
            Some(t) => Some(json_target(t)),
            None => None,
        },
        flat: match r.flat {
            Some(h) => Some(json_harberger(h)),
            None => None,
        },
    }
}

impl JsonRecord {
    /// A record as JSON shows it.
    pub fn of(r: &Record) -> (j: JsonRecord)
        ensures
            j@ == json_record(r@),
    {
        JsonRecord {
            name: r.name.clone(),
            owner: r.owner.to_text(),
            target: JsonTarget::of(&r.target),
            text: copy_pairs(&r.text),
            created_ns: decimal_text(r.created_ns as u128),
            updated_ns: decimal_text(r.updated_ns as u128),
            changed_hands_ns: decimal_text(r.changed_hands_ns as u128),
            previous_target: match &r.previous_target {
                Some(t) => Some(JsonTarget::of(t)),
                None => None,
            },
            flat: match &r.flat {
                Some(h) => Some(JsonHarberger::of(h)),
                None => None,
            },
        }
    }
}

// --- the canonical form from JSON ------------------------------------------------------------

/// A target of JSON in the certified form.
pub open spec fn json_target_text(t: JsonTargetState) -> Seq<char> {
    match t {
        JsonTargetState::Address(p) => "address:"@ + p,
        JsonTargetState::Alias(n) => "alias:"@ + n,
    }
}

/// The lines of the certified form, from JSON alone.
pub open spec fn json_lines(j: JsonRecordState) -> Seq<Seq<char>> {
    let head = seq![
        "name="@ + j.name,
        "owner="@ + j.owner,
        "target="@ + json_target_text(j.target),
    ];
    let times = seq![
        "created_ns="@ + j.created_ns,
        "updated_ns="@ + j.updated_ns,
        "changed_hands_ns="@ + j.changed_hands_ns,
    ];
    let previous = match j.previous_target {
        Some(t) => seq!["previous_target="@ + json_target_text(t)],
        None => Seq::empty(),
    };
    let flat = match j.flat {
        Some(h) => seq![
            "price="@ + h.price,
            "balance="@ + h.balance,
            "settled_ns="@ + h.settled_ns,
            "lapsed_ns="@ + match h.lapsed_ns {
                Some(ns) => ns,
                None => "none"@,
            },
        ],
        None => Seq::empty(),
    };
    head + j.text.map_values(|e: (Seq<char>, Seq<char>)| text_line(e)) + times + previous + flat
}

/// The JSON of a record is enough to rebuild the canonical text that the
/// witness commits to.
pub proof fn law_json_rebuilds_the_canonical_form(r: RecordState)
    ensures
        canonical_text(r) == unlines(json_lines(json_record(r))),
{
    let j = json_record(r);
    assert(json_target_text(j.target) == target_text(r.target));
    assert(seq![
        "name="@ + j.name,
        "owner="@ + j.owner,
        "target="@ + json_target_text(j.target),
    ] =~= head_lines(r));
    assert(seq![
        "created_ns="@ + j.created_ns,
        "updated_ns="@ + j.updated_ns,
        "changed_hands_ns="@ + j.changed_hands_ns,
    ] =~= time_lines(r));
    assert(json_lines(j) =~= record_lines(r));
}

// --- resolutions ------------------------------------------------------------------------------

/// A resolved name with its proof.
#[derive(Debug, PartialEq, Eq)]
pub struct JsonResolved {
    pub name: String,
    pub canister: String,
    pub chain: Vec<JsonRecord>,
    /// base64 CBOR, as in the IC-Certificate header convention.
    pub certificate: Option<String>,
    /// base64 CBOR hash tree.
    pub witness: String,
}

/// A resolved name by its contents.
#[verifier::ext_equal]
pub struct JsonResolvedState {
    pub name: Seq<char>,
    pub canister: Seq<char>,
    pub chain: Seq<JsonRecordState>,
    pub certificate: Option<Seq<char>>,
    pub witness: Seq<char>,
}

impl View for JsonResolved {
    type V = JsonResolvedState;

    open spec fn view(&self) -> JsonResolvedState {
        JsonResolvedState {
            name: self.name@,
            canister: self.canister@,
            chain: views(self.chain@),
            certificate: seen(self.certificate),
            witness: self.witness@,
        }
    }
}

/// A resolution as JSON shows it.
pub open spec fn json_resolved(
    name: Seq<char>,
    canister: Seq<u8>,
    chain: Seq<RecordState>,
    certificate: Option<Seq<u8>>,
    witness: Seq<u8>,
) -> JsonResolvedState {
    JsonResolvedState {
        name,
        canister: principal_text(canister),
        chain: chain.map_values(|r: RecordState| json_record(r)),
        certificate: match certificate {
            Some(c) => Some(base64_text(c)),
            None => None,
        },
        witness: base64_text(witness),
    }
}

impl JsonResolved {
    /// A resolution as JSON shows it.
    pub fn of(r: &Resolved) -> (j: JsonResolved)
        ensures
            j@ == json_resolved(
                r.name@,
                r.canister@,
                views(r.chain@),
                seen(r.certificate),
                r.witness@,
            ),
    {
        let ghost all = views(r.chain@).map_values(|x: RecordState| json_record(x));
        let mut chain: Vec<JsonRecord> = Vec::new();
        let mut i: usize = 0;
        assert(views(chain@) =~= all.take(0));
        while i < r.chain.len()
            invariant
                i <= r.chain@.len(),
                all == views(r.chain@).map_values(|x: RecordState| json_record(x)),
                views(chain@) == all.take(i as int),
            decreases r.chain.len() - i,
        {
            let ghost before = chain@;
            chain.push(JsonRecord::of(&r.chain[i]));
            assert(views(r.chain@)[i as int] == r.chain@[i as int]@);
            assert(views(chain@) =~= views(before).push(all[i as int]));
            assert(all.take(i + 1) =~= all.take(i as int).push(all[i as int]));
            i += 1;
        }
        assert(all.take(i as int) =~= all);
        JsonResolved {
            name: r.name.clone(),
            canister: r.canister.to_text(),
            chain,
            certificate: match &r.certificate {
                Some(c) => Some(base64_of(c.as_slice())),
                None => None,
            },
            witness: base64_of(r.witness.as_slice()),
        }
    }
}

// --- search -----------------------------------------------------------------------------------

/// A directory entry.
#[derive(Debug, PartialEq, Eq)]
pub struct JsonHit {
    pub name: String,
    pub target: JsonTarget,
    pub description: Option<String>,
    pub tags: Vec<String>,
    pub repo: Option<String>,
    pub commit: Option<String>,
    pub module_hash: Option<String>,
    pub updated_ns: String,
}

/// A directory entry by its contents.
#[verifier::ext_equal]
pub struct JsonHitState {
    pub name: Seq<char>,
    pub target: JsonTargetState,
    pub description: Option<Seq<char>>,
    pub tags: Seq<Seq<char>>,
    pub repo: Option<Seq<char>>,
    pub commit: Option<Seq<char>>,
    pub module_hash: Option<Seq<char>>,
    pub updated_ns: Seq<char>,
}

impl View for JsonHit {
    type V = JsonHitState;

    open spec fn view(&self) -> JsonHitState {
        JsonHitState {
            name: self.name@,
            target: self.target@,
            description: seen(self.description),
            tags: texts(self.tags@),
            repo: seen(self.repo),
            commit: seen(self.commit),
            module_hash: seen(self.module_hash),
            updated_ns: self.updated_ns@,
        }
    }
}

/// A directory entry as JSON shows it.
pub open spec fn json_hit(h: HitState) -> JsonHitState {
    JsonHitState {
        name: h.name,
        target: json_target(h.target),
        description: h.description,
        tags: h.tags,
        repo: h.repo,
        commit: h.commit,
        module_hash: h.module_hash,
        updated_ns: decimal(h.updated_ns as nat),
    }
}

/// An optional text once more.
fn copy_text(t: &Option<String>) -> (r: Option<String>)
    ensures
        seen(r) == seen(*t),
{
    match t {
        Some(s) => Some(s.clone()),
        None => None,
    }
}

impl JsonHit {
    /// A directory entry as JSON shows it.
    pub fn of(h: &Hit) -> (j: JsonHit)
        ensures
            j@ == json_hit(h@),
    {
        JsonHit {
            name: h.name.clone(),
            target: JsonTarget::of(&h.target),
            description: copy_text(&h.description),
            tags: copy_texts(&h.tags),
            repo: copy_text(&h.repo),
            commit: copy_text(&h.commit),
            module_hash: copy_text(&h.module_hash),
            updated_ns: decimal_text(h.updated_ns as u128),
        }
    }
}

/// What a search found.
#[derive(Debug, PartialEq, Eq)]
pub struct JsonSearch {
    pub total: u32,
    pub offset: u32,
    pub hits: Vec<JsonHit>,
}

/// What a search found, by its contents.
#[verifier::ext_equal]
pub struct JsonSearchState {
    pub total: u32,
    pub offset: u32,
    pub hits: Seq<JsonHitState>,
}

impl View for JsonSearch {
    type V = JsonSearchState;

    open spec fn view(&self) -> JsonSearchState {
        JsonSearchState { total: self.total, offset: self.offset, hits: views(self.hits@) }
    }
}

/// A page of a search as JSON shows it.
pub open spec fn json_search(total: u32, offset: u32, hits: Seq<HitState>) -> JsonSearchState {
    JsonSearchState { total, offset, hits: hits.map_values(|h: HitState| json_hit(h)) }
}

impl JsonSearch {
    /// A page of a search as JSON shows it.
    pub fn of(s: &SearchResult) -> (j: JsonSearch)
        ensures
            j@ == json_search(s.total, s.offset, views(s.hits@)),
    {
        let ghost all = views(s.hits@).map_values(|x: HitState| json_hit(x));
        let mut hits: Vec<JsonHit> = Vec::new();
        let mut i: usize = 0;
        assert(views(hits@) =~= all.take(0));
        while i < s.hits.len()
            invariant
                i <= s.hits@.len(),
                all == views(s.hits@).map_values(|x: HitState| json_hit(x)),
                views(hits@) == all.take(i as int),
            decreases s.hits.len() - i,
        {
            let ghost before = hits@;
            hits.push(JsonHit::of(&s.hits[i]));
            assert(views(s.hits@)[i as int] == s.hits@[i as int]@);
            assert(views(hits@) =~= views(before).push(all[i as int]));
            assert(all.take(i + 1) =~= all.take(i as int).push(all[i as int]));
            i += 1;
        }
        assert(all.take(i as int) =~= all);
        JsonSearch { total: s.total, offset: s.offset, hits }
    }
}

// --- names running out --------------------------------------------------------------------------

/// A flat name close to running out.
#[derive(Debug, PartialEq, Eq)]
pub struct JsonExpiring {
    pub name: String,
    pub owner: String,
    /// "active", or "grace" once the balance has run out.
    pub status: String,
    pub deadline_ns: String,
    pub balance: String,
    pub tax_per_year: String,
}

/// A name running out by its contents.
#[verifier::ext_equal]
pub struct JsonExpiringState {
    pub name: Seq<char>,
    pub owner: Seq<char>,
    pub status: Seq<char>,
    pub deadline_ns: Seq<char>,
    pub balance: Seq<char>,
    pub tax_per_year: Seq<char>,
}

impl View for JsonExpiring {
    type V = JsonExpiringState;

    open spec fn view(&self) -> JsonExpiringState {
        JsonExpiringState {
            name: self.name@,
            owner: self.owner@,
            status: self.status@,
            deadline_ns: self.deadline_ns@,
            balance: self.balance@,
            tax_per_year: self.tax_per_year@,
        }
    }
}

/// A status in one word.
pub open spec fn status_word(s: Status) -> Seq<char> {
    match s {
        Status::Active => "active"@,
        Status::Grace { until_ns } => "grace"@,
        Status::Free => "free"@,
    }
}

/// A name running out as JSON shows it.
pub open spec fn json_expiring(e: ExpiringState) -> JsonExpiringState {
    JsonExpiringState {
        name: e.name,
        owner: principal_text(e.owner),
        status: status_word(e.status),
        deadline_ns: decimal(e.deadline_ns as nat),
        balance: decimal(e.balance as nat),
        tax_per_year: decimal(e.tax_per_year as nat),
    }
}

impl JsonExpiring {
    /// A name running out as JSON shows it.
    pub fn of(e: &Expiring) -> (j: JsonExpiring)
        ensures
            j@ == json_expiring(e@),
    {
        JsonExpiring {
            name: e.name.clone(),
            owner: e.owner.to_text(),
            status: match e.status {
                Status::Active => "active".to_string(),
                Status::Grace { until_ns: _ } => "grace".to_string(),
                Status::Free => "free".to_string(),
            },
            deadline_ns: decimal_text(e.deadline_ns as u128),
            balance: decimal_text(e.balance),
            tax_per_year: decimal_text(e.tax_per_year),
        }
    }

    /// Names running out as JSON shows them.
    pub fn list(names: &Vec<Expiring>) -> (r: Vec<JsonExpiring>)
        ensures
            views(r@) == views(names@).map_values(|e: ExpiringState| json_expiring(e)),
    {
        let ghost all = views(names@).map_values(|e: ExpiringState| json_expiring(e));
        let mut out: Vec<JsonExpiring> = Vec::new();
        let mut i: usize = 0;
        assert(views(out@) =~= all.take(0));
        while i < names.len()
            invariant
                i <= names@.len(),
                all == views(names@).map_values(|e: ExpiringState| json_expiring(e)),
                views(out@) == all.take(i as int),
            decreases names.len() - i,
        {
            let ghost before = out@;
            out.push(JsonExpiring::of(&names[i]));
            assert(views(names@)[i as int] == names@[i as int]@);
            assert(views(out@) =~= views(before).push(all[i as int]));
            assert(all.take(i + 1) =~= all.take(i as int).push(all[i as int]));
            i += 1;
        }
        assert(all.take(i as int) =~= all);
        out
    }
}

/// A directory entry in JSON says what the entry does.
pub proof fn law_json_hit_shows_the_entry(h: HitState)
    ensures
        ({
            let j = json_hit(h);
            &&& j.name == h.name
            &&& json_target_text(j.target) == target_text(h.target)
            &&& j.description == h.description
            &&& j.tags == h.tags
            &&& j.repo == h.repo
            &&& j.commit == h.commit
            &&& j.module_hash == h.module_hash
            &&& j.updated_ns == decimal(h.updated_ns as nat)
        }),
{
}

/// A name running out in JSON says what its entry does, its status in one
/// word.
pub proof fn law_json_expiring_shows_the_entry(e: ExpiringState)
    ensures
        ({
            let j = json_expiring(e);
            &&& j.name == e.name
            &&& j.owner == principal_text(e.owner)
            &&& e.status is Active ==> j.status == "active"@
            &&& e.status is Grace ==> j.status == "grace"@
            &&& e.status is Free ==> j.status == "free"@
            &&& j.deadline_ns == decimal(e.deadline_ns as nat)
            &&& j.balance == decimal(e.balance as nat)
            &&& j.tax_per_year == decimal(e.tax_per_year as nat)
        }),
{
}

} // verus!
