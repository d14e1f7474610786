//! Resolution: follow aliases from a name to an address, with proof.

use vstd::prelude::*;
use vstd::utf8::*;

use crate::certify;
use crate::certify::{certified, is_witness, leaves_of, witness_shape, MAX_ALIAS_DEPTH};
use crate::harberger;
use crate::harberger::{params_of, record_status};
use crate::hashtree::{
    digest_of, holds_tree, readable_depth, reveals, tree_cbor, tree_in, two_labels,
};
use crate::maps::views;
use crate::names;
use crate::names::{flat_error, is_flat_name, is_scoped_name, scoped_error};
use crate::principal::Principal;
use crate::record::{canonical_bytes, Record, RecordState, Target, TargetState};
use crate::registry::{lapsed, missing, sound, Registry};
use crate::store;
use crate::store::{Store, StoreState};
use crate::tax::{status_at, Status};
use crate::text::{join3, same_text, seen, texts};

verus! {

/// Whether a chain holds a record of this name.
pub open spec fn visited(chain: Seq<RecordState>, name: Seq<char>) -> bool {
    exists|i: int| 0 <= i < chain.len() && (#[trigger] chain[i]).name == name
}

/// Where following aliases ends from `current`, with the records visited so
/// far in `chain`: the canister and every record visited, or why it fails.
pub open spec fn walk(
    s: StoreState,
    chain: Seq<RecordState>,
    current: Seq<char>,
    now: u64,
) -> Result<(Seq<u8>, Seq<RecordState>), Seq<char>>
    decreases MAX_ALIAS_DEPTH - chain.len(),
{
    if chain.len() >= MAX_ALIAS_DEPTH {
        Err("alias chain deeper than 8"@)
    } else if visited(chain, current) {
        Err("alias loop at '"@ + current + "'"@)
    } else if !s.records.contains_key(current) {
        Err(missing(current))
    } else {
        let r = s.records[current];
        if record_status(params_of(s.settings.config), r, now) is Free {
            Err(lapsed(current))
        } else {
            match r.target {
                TargetState::Address(p) => Ok((p, chain.push(r))),
                TargetState::Alias(next) => walk(s, chain.push(r), next, now),
            }
        }
    }
}

/// What a name resolves to.
pub open spec fn resolution(s: StoreState, name: Seq<char>, now: u64) -> Result<
    (Seq<u8>, Seq<RecordState>),
    Seq<char>,
> {
    if name.contains('/') && !is_scoped_name(name) {
        Err(scoped_error(name))
    } else if !name.contains('/') && !is_flat_name(name) {
        Err(flat_error(name))
    } else {
        walk(s, Seq::empty(), name, now)
    }
}

/// An end of a chain by its contents.
pub open spec fn followed(r: Result<(Principal, Vec<Record>), String>) -> Result<
    (Seq<u8>, Seq<RecordState>),
    Seq<char>,
> {
    match r {
        Ok((p, chain)) => Ok((p@, views(chain@))),
        Err(e) => Err(e@),
    }
}

/// The end of a chain at a canister.
pub open spec fn followed_to(canister: Seq<u8>, chain: Seq<RecordState>) -> Result<
    (Seq<u8>, Seq<RecordState>),
    Seq<char>,
> {
    Ok((canister, chain))
}

/// Whether a chain holds a record of this name.
fn is_visited(chain: &Vec<Record>, name: &str) -> (r: bool)
    ensures
        r == visited(views(chain@), name@),
{
    let mut i: usize = 0;
    while i < chain.len()
        invariant
            i <= chain@.len(),
            forall|j: int| 0 <= j < i ==> (#[trigger] views(chain@)[j]).name != name@,
        decreases chain.len() - i,
    {
        assert(views(chain@)[i as int] == chain@[i as int]@);
        if same_text(chain[i].name.as_str(), name) {
            return true;
        }
        i += 1;
    }
    false
}

/// Follow aliases from `name` to an address. Returns the canister and every
/// record visited, requested name first. A lapsed flat name does not
/// resolve. The stored record goes into the chain unsettled, since that is
/// what the witness leaf holds.
pub fn follow(store: &Store, name: &str, now: u64) -> (r: Result<(Principal, Vec<Record>), String>)
    ensures
        followed(r) == resolution(store@, name@, now),
        answers_fully(store@, name@, now, followed(r)),
{
    store.records.facts();
    proof {
        lemma_answers_fully(store@, name@, now);
    }
    if names::is_scoped(name) {
        match names::split(name) {
            Err(e) => {
                return Err(e);
            },
            Ok(_) => {},
        }
    } else {
        match names::check_flat(name) {
            Err(e) => {
                return Err(e);
            },
            Ok(_) => {},
        }
    }
    let cfg = harberger::config(store);
    let mut chain: Vec<Record> = Vec::new();
    let mut current = name.to_string();
    assert(views(chain@) =~= Seq::<RecordState>::empty());
    loop
        invariant
            cfg@ == store@.settings.config,
            chain@.len() <= MAX_ALIAS_DEPTH,
            resolution(store@, name@, now) == walk(store@, views(chain@), current@, now),
            answers_fully(store@, name@, now, resolution(store@, name@, now)),
        decreases MAX_ALIAS_DEPTH - chain@.len(),
    {
        let ghost past = views(chain@);
        assert(past.len() == chain@.len());
        if chain.len() >= MAX_ALIAS_DEPTH {
            return Err("alias chain deeper than 8".to_string());
        }
        if is_visited(&chain, current.as_str()) {
            return Err(join3("alias loop at '", current.as_str(), "'"));
        }
        let record = match store::get_record(store, current.as_str()) {
            Some(r) => r,
            None => {
                return Err(join3("no record for '", current.as_str(), "'"));
            },
        };
        match &record.flat {
            Some(h) => {
                let mut h = *h;
                let (status, _) = harberger::settle(&cfg, &mut h, now);
                match status {
                    Status::Free => {
                        return Err(
                            join3("'", current.as_str(), "' has lapsed and is free to claim"),
                        );
                    },
                    _ => {},
                }
            },
            None => {},
        }
        let next = record.target.clone();
        let ghost was = chain@;
        chain.push(record);
        assert(views(chain@) =~= past.push(record@));
        match next {
            Target::Address(p) => {
                return Ok((p, chain));
            },
            Target::Alias(n) => {
                current = n;
            },
        }
    }
}

/// A resolved name, with its proof.
pub struct Resolved {
    /// The name asked for.
    pub name: String,
    /// Where it ends up after following aliases.
    pub canister: Principal,
    /// Every record visited, requested name first, address last.
    pub chain: Vec<Record>,
    /// The subnet certificate over this canister's certified data. None
    /// only when the replica has none to give.
    pub certificate: Option<Vec<u8>>,
    /// CBOR hash tree, label "names", revealing the canonical bytes of every
    /// record in `chain` and hashing to the certified root.
    pub witness: Vec<u8>,
}

/// The names of a chain.
pub open spec fn chain_names(chain: Seq<RecordState>) -> Seq<Seq<char>> {
    chain.map_values(|r: RecordState| r.name)
}

/// The names of a chain.
fn names_of(chain: &Vec<Record>) -> (r: Vec<String>)
    ensures
        texts(r@) == chain_names(views(chain@)),
{
    let ghost all = chain_names(views(chain@));
    let mut out: Vec<String> = Vec::new();
    let mut i: usize = 0;
    assert(texts(out@) =~= all.take(0));
    while i < chain.len()
        invariant
            i <= chain@.len(),
            all == chain_names(views(chain@)),
            texts(out@) == all.take(i as int),
        decreases chain.len() - i,
    {
        let ghost before = out@;
        out.push(chain[i].name.clone());
        assert(views(chain@)[i as int] == chain@[i as int]@);
        assert(texts(out@) =~= texts(before).push(all[i as int]));
        assert(all.take(i + 1) =~= all.take(i as int).push(all[i as int]));
        i += 1;
    }
    assert(all.take(i as int) =~= all);
    out
}

impl Registry {
    /// Resolve a name with its proof, given the subnet's certificate over
    /// the certified data if there is one to give.
    pub fn resolve_inner(&self, name: &str, certificate: Option<Vec<u8>>, now: u64) -> (r: Result<
        Resolved,
        String,
    >)
        ensures
            match resolution(self@.store, name@, now) {
                Err(e) => r is Err && r->Err_0@ == e,
                Ok((canister, chain)) => {
                    let shape = witness_shape(self.tree, chain_names(chain));
                    &&& r matches Ok(a)
                    &&& a.name@ == name@
                    &&& a.canister@ == canister
                    &&& views(a.chain@) == chain
                    &&& seen(a.certificate) == seen(certificate)
                    &&& a.witness@ == tree_cbor(shape)
                    &&& readable_depth(shape) ==> tree_in(a.witness@) == holds_tree(shape)
                    &&& tree_in(a.witness@) matches Ok(w) ==> w == shape
                    &&& is_witness(shape, self.tree, chain_names(chain))
                },
            },
    {
        let (canister, chain) = match follow(&self.store, name, now) {
            Err(e) => {
                return Err(e);
            },
            Ok(x) => x,
        };
        let hops = names_of(&chain);
        let witness = certify::witness(&self.tree, &hops);
        Ok(Resolved { name: name.to_string(), canister, chain, certificate, witness })
    }
}

// --- what holds of every resolution ---------------------------------------------------------

/// Whether every record stands under its own name.
pub open spec fn keyed_by_name(s: StoreState) -> bool {
    forall|n: Seq<char>| #[trigger] s.records.contains_key(n) ==> s.records[n].name == n
}

/// Whether a chain leads from `name` to `canister`: at most 8 stored
/// records, none twice, none lapsed, each aliasing the next, the last one
/// an address.
pub open spec fn leads(
    s: StoreState,
    name: Seq<char>,
    canister: Seq<u8>,
    chain: Seq<RecordState>,
    now: u64,
) -> bool {
    &&& 1 <= chain.len() <= 8
    &&& chain[0].name == name
    &&& links(s, chain, now)
    &&& forall|i: int|
        0 <= i < chain.len() - 1 ==> (#[trigger] chain[i]).target == TargetState::Alias(
            chain[i + 1].name,
        )
    &&& chain.last().target == TargetState::Address(canister)
}

/// Whether a record is somebody's at `now`: it has no holding that could run
/// out, or one that is active or in its grace period.
pub open spec fn in_hands(s: StoreState, r: RecordState, now: u64) -> bool {
    r.flat matches Some(h) ==> {
        let status = status_at(params_of(s.settings.config), h, now);
        status is Active || status is Grace
    }
}

/// Whether a chain is of stored records, none twice and none lapsed.
pub open spec fn links(s: StoreState, chain: Seq<RecordState>, now: u64) -> bool {
    &&& forall|i: int|
        0 <= i < chain.len() ==> s.records.contains_key((#[trigger] chain[i]).name)
            && s.records[chain[i].name] == chain[i] && in_hands(s, chain[i], now)
    &&& forall|i: int, j: int|
        0 <= i < j < chain.len() ==> (#[trigger] chain[i]).name != (#[trigger] chain[j]).name
}

/// Following from a good start leads somewhere, or fails.
proof fn lemma_walk(s: StoreState, chain: Seq<RecordState>, current: Seq<char>, now: u64)
    requires
        keyed_by_name(s),
        chain.len() <= MAX_ALIAS_DEPTH,
        links(s, chain, now),
        forall|i: int|
            0 <= i < chain.len() - 1 ==> (#[trigger] chain[i]).target == TargetState::Alias(
                chain[i + 1].name,
            ),
        chain.len() > 0 ==> chain.last().target == TargetState::Alias(current),
    ensures
        walk(s, chain, current, now) matches Ok(x) ==> leads(
            s,
            if chain.len() > 0 {
                chain[0].name
            } else {
                current
            },
            x.0,
            x.1,
            now,
        ),
    decreases MAX_ALIAS_DEPTH - chain.len(),
{
    if walk(s, chain, current, now) is Ok {
        let r = s.records[current];
        let next = chain.push(r);
        assert(r.name == current);
        assert forall|i: int, j: int| 0 <= i < j < next.len() implies (#[trigger] next[i]).name != (
        #[trigger] next[j]).name by {
            assert(next[i] == chain[i]);
            if j == chain.len() {
                assert(chain[i].name != current);
            } else {
                assert(next[j] == chain[j]);
            }
        }
        assert forall|i: int| 0 <= i < next.len() - 1 implies (#[trigger] next[i]).target
            == TargetState::Alias(next[i + 1].name) by {
            assert(next[i] == chain[i]);
            if i < chain.len() - 1 {
                assert(next[i + 1] == chain[i + 1]);
            }
        }
        match r.target {
            TargetState::Address(p) => {},
            TargetState::Alias(to) => {
                lemma_walk(s, next, to, now);
                assert(next[0].name == if chain.len() > 0 {
                    chain[0].name
                } else {
                    current
                });
            },
        }
    }
}

/// A resolution visits at most 8 stored records, none twice and none
/// lapsed; it starts at the name asked for, every record aliases the next,
/// and the last one is the address it gives.
pub proof fn law_resolution_leads(s: StoreState, name: Seq<char>, now: u64)
    requires
        keyed_by_name(s),
    ensures
        resolution(s, name, now) matches Ok(x) ==> leads(s, name, x.0, x.1, now),
{
    lemma_walk(s, Seq::empty(), name, now);
}

/// Only a scoped name or a flat name resolves.
pub proof fn law_only_names_resolve(s: StoreState, name: Seq<char>, now: u64)
    ensures
        resolution(s, name, now) is Ok ==> is_scoped_name(name) || is_flat_name(name),
{
}

/// Whether a chain is a way from `name` as far as `current`: stored records,
/// none twice and none lapsed, the first one of the name, each aliasing the
/// next, the last one aliasing `current`.
pub open spec fn way_to(
    s: StoreState,
    name: Seq<char>,
    chain: Seq<RecordState>,
    current: Seq<char>,
    now: u64,
) -> bool {
    &&& chain.len() <= 8
    &&& links(s, chain, now)
    &&& forall|i: int|
        0 <= i < chain.len() - 1 ==> (#[trigger] chain[i]).target == TargetState::Alias(
            chain[i + 1].name,
        )
    &&& if chain.len() == 0 {
        current == name
    } else {
        chain[0].name == name && chain.last().target == TargetState::Alias(current)
    }
}

/// Following goes along a way as far as it leads.
proof fn lemma_along(
    s: StoreState,
    name: Seq<char>,
    chain: Seq<RecordState>,
    current: Seq<char>,
    now: u64,
    i: int,
)
    requires
        way_to(s, name, chain, current, now),
        0 <= i <= chain.len(),
    ensures
        walk(s, Seq::empty(), name, now) == walk(
            s,
            chain.take(i),
            if i < chain.len() {
                chain[i].name
            } else {
                current
            },
            now,
        ),
    decreases i,
{
    if i == 0 {
        assert(chain.take(0) =~= Seq::<RecordState>::empty());
    } else {
        lemma_along(s, name, chain, current, now, i - 1);
        let past = chain.take(i - 1);
        let r = chain[i - 1];
        assert(!visited(past, r.name)) by {
            if visited(past, r.name) {
                let j = choose|j: int| 0 <= j < past.len() && (#[trigger] past[j]).name == r.name;
                assert(past[j] == chain[j]);
                assert(chain[j].name != chain[i - 1].name);
            }
        }
        assert(in_hands(s, r, now));
        assert(past.push(r) =~= chain.take(i));
        if i < chain.len() {
            assert(chain[i - 1].target == TargetState::Alias(chain[i - 1 + 1].name));
        }
    }
}

/// A name resolves wherever it can: if some chain of at most 8 stored records
/// leads from it to an address, none twice and every one of them held, be it
/// in its grace period, then it resolves to exactly that address along
/// exactly that chain.
pub proof fn law_held_chain_resolves(
    s: StoreState,
    name: Seq<char>,
    canister: Seq<u8>,
    chain: Seq<RecordState>,
    now: u64,
)
    requires
        is_scoped_name(name) || is_flat_name(name),
        1 <= chain.len() <= 8,
        chain[0].name == name,
        links(s, chain, now),
        forall|i: int|
            0 <= i < chain.len() - 1 ==> (#[trigger] chain[i]).target == TargetState::Alias(
                chain[i + 1].name,
            ),
        chain.last().target == TargetState::Address(canister),
    ensures
        resolution(s, name, now) == followed_to(canister, chain),
{
    let before = chain.drop_last();
    let last = chain.last();
    assert forall|i: int| 0 <= i < before.len() implies s.records.contains_key(
        (#[trigger] before[i]).name,
    ) && s.records[before[i].name] == before[i] && in_hands(s, before[i], now) by {
        assert(before[i] == chain[i]);
    }
    assert forall|i: int| 0 <= i < before.len() - 1 implies (#[trigger] before[i]).target
        == TargetState::Alias(before[i + 1].name) by {
        assert(before[i] == chain[i]);
    }
    assert forall|i: int, j: int| 0 <= i < j < before.len() implies (#[trigger] before[i]).name != (
    #[trigger] before[j]).name by {
        assert(before[i] == chain[i] && before[j] == chain[j]);
    }
    if before.len() > 0 {
        assert(before.last() == chain[chain.len() - 2]);
        assert(chain[chain.len() - 2].target == TargetState::Alias(chain[chain.len() - 1].name));
    }
    if is_flat_name(name) {
        names::lemma_segment_no_slash(name);
    }
    lemma_along(s, name, before, last.name, now, before.len() as int);
    assert(before.take(before.len() as int) =~= before);
    assert(!visited(before, last.name)) by {
        if visited(before, last.name) {
            let j = choose|j: int| 0 <= j < before.len() && (#[trigger] before[j]).name == last.name;
            assert(before[j] == chain[j]);
            assert(chain[j].name != chain[chain.len() - 1].name);
        }
    }
    assert(in_hands(s, chain[chain.len() - 1], now));
    assert(before.push(last) =~= chain);
}

/// A name that does not resolve says where its way ends: at the ninth record,
/// at one visited before, at a name without a record, or at a flat name whose
/// grace period is over.
pub proof fn law_dead_ends_are_told(
    s: StoreState,
    name: Seq<char>,
    chain: Seq<RecordState>,
    current: Seq<char>,
    now: u64,
)
    requires
        is_scoped_name(name) || is_flat_name(name),
        way_to(s, name, chain, current, now),
    ensures
        ({
            let told = resolution(s, name, now);
            let again = exists|i: int| 0 <= i < chain.len() && (#[trigger] chain[i]).name == current;
            &&& chain.len() == 8 ==> told is Err && told->Err_0 == "alias chain deeper than 8"@
            &&& chain.len() < 8 && again ==> told is Err && told->Err_0 == "alias loop at '"@
                + current + "'"@
            &&& chain.len() < 8 && !again && !s.records.contains_key(current) ==> told is Err
                && told->Err_0 == "no record for '"@ + current + "'"@
            &&& chain.len() < 8 && !again && s.records.contains_key(current) && (
            s.records[current].flat matches Some(h) && status_at(
                params_of(s.settings.config),
                h,
                now,
            ) is Free) ==> told is Err && told->Err_0 == "'"@ + current
                + "' has lapsed and is free to claim"@
        }),
{
    if is_flat_name(name) {
        names::lemma_segment_no_slash(name);
    }
    lemma_along(s, name, chain, current, now, chain.len() as int);
    assert(chain.take(chain.len() as int) =~= chain);
}

/// Whether an answer is the full one: a canister with a chain that leads
/// there, and, where any chain leads anywhere, that one.
#[verifier::opaque]
pub open spec fn answers_fully(
    s: StoreState,
    name: Seq<char>,
    now: u64,
    r: Result<(Seq<u8>, Seq<RecordState>), Seq<char>>,
) -> bool {
    let named = is_scoped_name(name) || is_flat_name(name);
    &&& r matches Ok(x) ==> named && leads(s, name, x.0, x.1, now)
    &&& forall|canister: Seq<u8>, chain: Seq<RecordState>|
        named && #[trigger] leads(s, name, canister, chain, now) ==> r == followed_to(
            canister,
            chain,
        )
}

/// Every resolution is the full answer.
proof fn lemma_answers_fully(s: StoreState, name: Seq<char>, now: u64)
    requires
        keyed_by_name(s),
    ensures
        answers_fully(s, name, now, resolution(s, name, now)),
{
    reveal(answers_fully);
    law_resolution_leads(s, name, now);
    law_only_names_resolve(s, name, now);
    if is_scoped_name(name) || is_flat_name(name) {
        assert forall|canister: Seq<u8>, chain: Seq<RecordState>| #[trigger]
            leads(s, name, canister, chain, now) implies resolution(s, name, now) == followed_to(
            canister,
            chain,
        ) by {
            law_held_chain_resolves(s, name, canister, chain, now);
        }
    }
}

/// A resolution visits the name asked for at least.
pub proof fn lemma_chain_not_empty(s: StoreState, name: Seq<char>, now: u64)
    ensures
        resolution(s, name, now) matches Ok(x) ==> x.1.len() > 0,
{
    lemma_walk_grows(s, Seq::empty(), name, now);
}

proof fn lemma_walk_grows(s: StoreState, chain: Seq<RecordState>, current: Seq<char>, now: u64)
    ensures
        walk(s, chain, current, now) matches Ok(x) ==> x.1.len() > chain.len(),
    decreases MAX_ALIAS_DEPTH - chain.len(),
{
    if walk(s, chain, current, now) is Ok {
        let r = s.records[current];
        match r.target {
            TargetState::Address(p) => {},
            TargetState::Alias(to) => {
                lemma_walk_grows(s, chain.push(r), to, now);
            },
        }
    }
}

/// In a sound registry the witness of a resolution has the certified root
/// and reveals, under "names", the canonical bytes of every record in its
/// chain and nothing else.
pub proof fn law_resolution_is_certified(reg: Registry, name: Seq<char>, now: u64)
    ensures
        sound(reg@) && resolution(reg@.store, name, now) is Ok && is_witness(
            witness_shape(reg.tree, chain_names(resolution(reg@.store, name, now)->Ok_0.1)),
            reg.tree,
            chain_names(resolution(reg@.store, name, now)->Ok_0.1),
        ) ==> {
            let chain = resolution(reg@.store, name, now)->Ok_0.1;
            let shape = witness_shape(reg.tree, chain_names(chain));
            &&& digest_of(shape) == digest_of(certified(reg.tree.shape()))
            &&& forall|i: int|
                0 <= i < chain.len() ==> reveals(
                    shape,
                    two_labels(encode_utf8("names"@), encode_utf8((#[trigger] chain[i]).name)),
                    canonical_bytes(chain[i]),
                )
            &&& forall|path: Seq<Seq<u8>>, v: Seq<u8>| #[trigger]
                reveals(shape, path, v) ==> exists|i: int|
                    0 <= i < chain.len() && path == two_labels(
                        encode_utf8("names"@),
                        encode_utf8((#[trigger] chain[i]).name),
                    ) && v == canonical_bytes(chain[i])
        },
{
    let s = reg@.store;
    let r = resolution(s, name, now);
    if sound(reg@) && r is Ok {
        let chain = r->Ok_0.1;
        let names = chain_names(chain);
        let shape = witness_shape(reg.tree, names);
        if is_witness(shape, reg.tree, names) {
            assert(keyed_by_name(s)) by {
                assert forall|n: Seq<char>| #[trigger] s.records.contains_key(
                    n,
                ) implies s.records[n].name == n by {
                    assert(crate::registry::good_record(s.handles, n, s.records[n]));
                }
            }
            law_resolution_leads(s, name, now);
            assert forall|i: int| 0 <= i < chain.len() implies reg.tree@.contains_key(
                encode_utf8((#[trigger] chain[i]).name),
            ) && reg.tree@[encode_utf8(chain[i].name)] == canonical_bytes(chain[i]) by {
                let n = chain[i].name;
                encode_utf8_valid_utf8(n);
                encode_utf8_decode_utf8(n);
                assert(leaves_of(s.records).contains_key(encode_utf8(n)));
            }
            assert forall|i: int| 0 <= i < chain.len() implies reveals(
                shape,
                two_labels(encode_utf8("names"@), encode_utf8((#[trigger] chain[i]).name)),
                canonical_bytes(chain[i]),
            ) by {
                assert(names[i] == chain[i].name);
            }
            assert forall|path: Seq<Seq<u8>>, v: Seq<u8>| #[trigger]
                reveals(shape, path, v) implies exists|i: int|
                0 <= i < chain.len() && path == two_labels(
                    encode_utf8("names"@),
                    encode_utf8((#[trigger] chain[i]).name),
                ) && v == canonical_bytes(chain[i]) by {
                let i = choose|i: int|
                    #![trigger names[i]]
                    0 <= i < names.len() && path == two_labels(
                        encode_utf8("names"@),
                        encode_utf8(names[i]),
                    ) && reg.tree@.contains_key(encode_utf8(names[i])) && v
                        == reg.tree@[encode_utf8(names[i])];
                assert(names[i] == chain[i].name);
            }
        }
    }
}

} // verus!
