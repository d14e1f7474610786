//! The verifier's side of certified resolution: what an answer must be for a
//! caller who trusts only the subnet's signature.
//!
//!   A. the certificate's signature (and any subnet delegation) checks out
//!      against the root key, and the certificate is fresh;
//!   B. /canister/<names>/certified_data in the certificate equals the
//!      digest of the returned witness tree;
//!   C. for every record in the returned chain, the witness has a leaf at
//!      ["names", <name>] equal to that record's canonical form, which is
//!      built here anew on purpose;
//!   D. the chain is well formed: the answer is for the name asked, the
//!      chain starts at it, every alias points at the next record, and the
//!      last record's address is the canister the answer names;
//!   E. a module hash that the last record pins is the target's live one.
//!
//! A is the agent's to check; the rest stands here.

use vstd::prelude::*;
use vstd::utf8::*;

use crate::certify::{certified, is_witness, witness_shape};
use crate::handover::{handover_note, note};
use crate::hashtree::{
    certificate_in, decode_certificate, decode_tree, digest_of, holds_tree, lemma_reveals_one,
    looked_up, lookup_value, orderly, reveals, three_labels, tree_cbor, tree_in, two_labels,
    value_at, Lookup, LookupState, ProofTree, Shape,
};
use crate::leaf::{
    law_leaf_is_one_record, legible, lemma_principal_one_line, principals_spelled, spelled,
};
use crate::maps::views;
use crate::principal::{principal_debug, principal_read, principal_text, Principal};
use crate::record::{
    canonical_bytes, canonical_text, flat_lines, head_lines, lapse_text, previous_lines,
    record_lines, target_text, text_line, text_value, time_lines, unlines, Record, RecordState,
    Target, TargetState,
};
use crate::registry::{sound, Registry};
use crate::resolve::{
    chain_names, keyed_by_name, law_resolution_is_certified, law_resolution_leads, resolution,
    Resolved,
};
use crate::text::{
    after_prefix, begins, debug_text, decimal_text, join2, join3, join4, join5, lossy_text, pairs,
    same_bytes, same_text, seen, text_debug, text_from_utf8_lossy, texts,
};

verus! {

// --- arguments ----------------------------------------------------------------------------

/// What the verifier was asked to do.
#[derive(Debug, PartialEq, Eq)]
pub struct Opts {
    pub url: String,
    pub canister: Principal,
    pub name: String,
    pub tamper: Option<String>,
    pub insecure_local_root_key: bool,
}

/// Why arguments are refused.
#[derive(Debug, PartialEq, Eq)]
pub enum Misuse {
    Usage,
    BadCanister(String),
}

/// Why arguments are refused, by its contents.
#[verifier::ext_equal]
pub enum MisuseState {
    Usage,
    BadCanister(Seq<char>),
}

impl View for Misuse {
    type V = MisuseState;

    open spec fn view(&self) -> MisuseState {
        match self {
            Misuse::Usage => MisuseState::Usage,
            Misuse::BadCanister(e) => MisuseState::BadCanister(e@),
        }
    }
}

/// What the arguments read so far say.
#[verifier::ext_equal]
pub struct ArgsState {
    pub url: Seq<char>,
    pub canister: Option<Seq<u8>>,
    pub name: Option<Seq<char>>,
    pub tamper: Option<Seq<char>>,
    pub insecure_local_root_key: bool,
}

/// What holds before any argument is read.
pub open spec fn no_args() -> ArgsState {
    ArgsState {
        url: "https://icp-api.io"@,
        canister: None,
        name: None,
        tamper: None,
        insecure_local_root_key: false,
    }
}

/// What arguments say, given what was read before them: a later one
/// overrides an earlier one, and the first bad one is what is refused.
pub open spec fn args_read(args: Seq<Seq<char>>, s: ArgsState) -> Result<ArgsState, MisuseState>
    decreases args.len(),
{
    if args.len() == 0 {
        Ok(s)
    } else {
        let a = args[0];
        let takes_value = a == "--url"@ || a == "--canister"@ || a == "--tamper"@;
        if takes_value && args.len() < 2 {
            Err(MisuseState::Usage)
        } else if a == "--url"@ {
            args_read(args.skip(2), ArgsState { url: args[1], ..s })
        } else if a == "--canister"@ {
            match principal_read(args[1]) {
                Ok(p) => args_read(args.skip(2), ArgsState { canister: Some(p), ..s }),
                Err(e) => Err(MisuseState::BadCanister(e)),
            }
        } else if a == "--tamper"@ {
            args_read(args.skip(2), ArgsState { tamper: Some(args[1]), ..s })
        } else if a == "--insecure-local-root-key"@ {
            args_read(args.skip(1), ArgsState { insecure_local_root_key: true, ..s })
        } else if begins(a, "-"@) {
            Err(MisuseState::Usage)
        } else {
            args_read(args.skip(1), ArgsState { name: Some(a), ..s })
        }
    }
}

/// Whether `r` is what the arguments ask for: a canister and a name are
/// required.
pub open spec fn parses(r: Result<Opts, Misuse>, args: Seq<Seq<char>>) -> bool {
    match args_read(args, no_args()) {
        Err(m) => r is Err && r->Err_0@ == m,
        Ok(s) => if s.canister is None || s.name is None {
            r is Err && r->Err_0@ == MisuseState::Usage
        } else {
            &&& r matches Ok(o)
            &&& o.url@ == s.url
            &&& Some(o.canister@) == s.canister
            &&& Some(o.name@) == s.name
            &&& seen(o.tamper) == s.tamper
            &&& o.insecure_local_root_key == s.insecure_local_root_key
        },
    }
}

/// Read the arguments, the program's own name left out.
pub fn parse_args(args: &Vec<String>) -> (r: Result<Opts, Misuse>)
    ensures
        parses(r, texts(args@)),
{
    let ghost all = texts(args@);
    let mut url = "https://icp-api.io".to_string();
    let mut canister: Option<Principal> = None;
    let mut name: Option<String> = None;
    let mut tamper: Option<String> = None;
    let mut insecure_local_root_key = false;
    let mut i: usize = 0;
    proof {
        assert(all.skip(0) =~= all);
    }
    while i < args.len()
        invariant
            i <= args@.len(),
            all == texts(args@),
            args_read(all, no_args()) == args_read(
                all.skip(i as int),
                (ArgsState {
                    url: url@,
                    canister: seen(canister),
                    name: seen(name),
                    tamper: seen(tamper),
                    insecure_local_root_key,
                }),
            ),
        decreases args.len() - i,
    {
        let a = args[i].as_str();
        let ghost rest = all.skip(i as int);
        proof {
            assert(rest[0] == a@);
            assert(rest.len() == args@.len() - i);
            if rest.len() > 1 {
                assert(rest[1] == args@[i + 1]@);
                assert(rest.skip(2) =~= all.skip(i + 2));
            }
            assert(rest.skip(1) =~= all.skip(i + 1));
        }
        if same_text(a, "--url") {
            if args.len() - i < 2 {
                return Err(Misuse::Usage);
            }
            url = args[i + 1].clone();
            i += 2;
        } else if same_text(a, "--canister") {
            if args.len() - i < 2 {
                return Err(Misuse::Usage);
            }
            match Principal::from_text(args[i + 1].as_str()) {
                Err(e) => {
                    return Err(Misuse::BadCanister(e));
                },
                Ok(p) => {
                    canister = Some(p);
                },
            }
            i += 2;
        } else if same_text(a, "--tamper") {
            if args.len() - i < 2 {
                return Err(Misuse::Usage);
            }
            tamper = Some(args[i + 1].clone());
            i += 2;
        } else if same_text(a, "--insecure-local-root-key") {
            insecure_local_root_key = true;
            i += 1;
        } else if after_prefix(a, "-").is_some() {
            return Err(Misuse::Usage);
        } else {
            name = Some(args[i].clone());
            i += 1;
        }
    }
    assert(all.skip(i as int) =~= Seq::<Seq<char>>::empty());
    match (canister, name) {
        (Some(canister), Some(name)) => Ok(
            Opts { url, canister, name, tamper, insecure_local_root_key },
        ),
        _ => Err(Misuse::Usage),
    }
}

// --- forging ------------------------------------------------------------------------------

/// The witness with the lowest bit of its last byte flipped.
pub open spec fn flipped(witness: Seq<u8>) -> Seq<u8> {
    witness.update(witness.len() - 1, witness.last() ^ 1)
}

/// A record with its update time moved by one.
pub open spec fn nudged(r: RecordState) -> RecordState {
    RecordState { updated_ns: (r.updated_ns + 1) as u64, ..r }
}

/// Why an answer cannot be forged.
pub open spec fn forge_fault(what: Seq<char>) -> Option<Seq<char>> {
    if what == "witness"@ || what == "record"@ {
        None
    } else {
        Some("unknown --tamper "@ + what)
    }
}

/// Forge an answer, to show that it is then refused. Self-test only.
pub fn forge(answer: &mut Resolved, what: &str) -> (r: Result<(), String>)
    requires
        what@ == "witness"@ ==> old(answer).witness@.len() > 0,
        what@ == "record"@ ==> old(answer).chain@.len() > 0 && old(answer).chain@[0].updated_ns
            < u64::MAX,
    ensures
        r is Ok <==> forge_fault(what@) is None,
        r matches Err(e) ==> forge_fault(what@) == Some(e@),
        final(answer).name == old(answer).name,
        final(answer).canister == old(answer).canister,
        final(answer).certificate == old(answer).certificate,
        final(answer).witness@ == (if what@ == "witness"@ {
            flipped(old(answer).witness@)
        } else {
            old(answer).witness@
        }),
        views(final(answer).chain@) == (if what@ == "record"@ {
            views(old(answer).chain@).update(0, nudged(old(answer).chain@[0]@))
        } else {
            views(old(answer).chain@)
        }),
{
    proof {
        reveal_strlit("witness");
        reveal_strlit("record");
        assert("witness"@.len() != "record"@.len());
    }
    if same_text(what, "witness") {
        let last: usize = answer.witness.len() - 1;
        let b: u8 = answer.witness[last];
        answer.witness.set(last, b ^ 1);
        return Ok(());
    }
    if same_text(what, "record") {
        let ghost before = answer.chain@;
        let mut first = answer.chain[0].clone();
        first.updated_ns = first.updated_ns + 1;
        answer.chain.set(0, first);
        assert(views(answer.chain@) =~= views(before).update(0, nudged(before[0]@)));
        return Ok(());
    }
    Err(join2("unknown --tamper ", what))
}

// --- the canonical form, built anew ----------------------------------------------------------

/// Add a line.
fn put(out: &mut String, key: &str, value: &str)
    ensures
        final(out)@ == old(out)@ + (key@ + value@) + "\n"@,
{
    let ghost before = out@;
    out.append(key);
    out.append(value);
    out.append("\n");
    assert(out@ =~= before + (key@ + value@) + "\n"@);
}

/// Lines and one more.
proof fn lemma_unlines_push(lines: Seq<Seq<char>>, line: Seq<char>)
    ensures
        unlines(lines.push(line)) == unlines(lines) + line + "\n"@,
{
    assert(lines.push(line).drop_last() =~= lines);
}

/// Add the line with a target.
fn put_target(out: &mut String, key: &str, t: &Target)
    ensures
        final(out)@ == old(out)@ + (key@ + target_text(t@)) + "\n"@,
        t@ matches TargetState::Address(p) ==> spelled(p),
{
    match t {
        Target::Address(p) => {
            let text = p.to_text();
            proof {
                lemma_principal_one_line(text@);
            }
            let value = join2("address:", text.as_str());
            put(out, key, value.as_str());
        },
        Target::Alias(n) => {
            let value = join2("alias:", n.as_str());
            put(out, key, value.as_str());
        },
    }
}

/// The certified leaf of a record.
pub fn canonical(r: &Record) -> (b: Vec<u8>)
    ensures
        b@ == canonical_bytes(r@),
        principals_spelled(r@),
{
    let mut out = String::new();
    let ghost mut lines = Seq::<Seq<char>>::empty();
    assert(out@ =~= unlines(lines));
    put(&mut out, "name=", r.name.as_str());
    proof {
        lemma_unlines_push(lines, "name="@ + r@.name);
        lines = lines.push("name="@ + r@.name);
    }
    let owner = r.owner.to_text();
    put(&mut out, "owner=", owner.as_str());
    proof {
        lemma_principal_one_line(owner@);
        lemma_unlines_push(lines, "owner="@ + principal_text(r@.owner));
        lines = lines.push("owner="@ + principal_text(r@.owner));
    }
    put_target(&mut out, "target=", &r.target);
    proof {
        lemma_unlines_push(lines, "target="@ + target_text(r@.target));
        lines = lines.push("target="@ + target_text(r@.target));
        assert(lines =~= head_lines(r@));
    }
    let ghost head = lines;
    let ghost entries = r@.text.map_values(|e: (Seq<char>, Seq<char>)| text_line(e));
    let mut i: usize = 0;
    assert(head + entries.take(0) =~= head);
    while i < r.text.len()
        invariant
            i <= r.text@.len(),
            r@.text == pairs(r.text@),
            entries == r@.text.map_values(|e: (Seq<char>, Seq<char>)| text_line(e)),
            out@ == unlines(head + entries.take(i as int)),
        decreases r.text.len() - i,
    {
        let key = join3("text.", r.text[i].0.as_str(), "=");
        put(&mut out, key.as_str(), r.text[i].1.as_str());
        proof {
            let e = entries[i as int];
            assert(e == text_line((r.text@[i as int].0@, r.text@[i as int].1@)));
            lemma_unlines_push(head + entries.take(i as int), e);
            assert((head + entries.take(i as int)).push(e) =~= head + entries.take(i + 1));
        }
        i += 1;
    }
    proof {
        assert(entries.take(i as int) =~= entries);
        lines = head + entries;
    }
    put(&mut out, "created_ns=", decimal_text(r.created_ns as u128).as_str());
    put(&mut out, "updated_ns=", decimal_text(r.updated_ns as u128).as_str());
    put(&mut out, "changed_hands_ns=", decimal_text(r.changed_hands_ns as u128).as_str());
    proof {
        let t = time_lines(r@);
        lemma_unlines_push(lines, t[0]);
        lemma_unlines_push(lines.push(t[0]), t[1]);
        lemma_unlines_push(lines.push(t[0]).push(t[1]), t[2]);
        assert(lines.push(t[0]).push(t[1]).push(t[2]) =~= lines + t);
        lines = lines + t;
    }
    match &r.previous_target {
        Some(t) => {
            put_target(&mut out, "previous_target=", t);
        },
        None => {},
    }
    proof {
        let p = previous_lines(r@);
        if r@.previous_target is Some {
            lemma_unlines_push(lines, p[0]);
            assert(lines.push(p[0]) =~= lines + p);
        } else {
            assert(lines =~= lines + p);
        }
        lines = lines + p;
    }
    match &r.flat {
        Some(h) => {
            put(&mut out, "price=", decimal_text(h.price).as_str());
            put(&mut out, "balance=", decimal_text(h.balance).as_str());
            put(&mut out, "settled_ns=", decimal_text(h.settled_ns as u128).as_str());
            let lapsed = match h.lapsed_ns {
                Some(ns) => decimal_text(ns as u128),
                None => "none".to_string(),
            };
            put(&mut out, "lapsed_ns=", lapsed.as_str());
            proof {
                let f = flat_lines(r@);
                assert(f[3] == "lapsed_ns="@ + lapse_text(h.lapsed_ns));
                lemma_unlines_push(lines, f[0]);
                lemma_unlines_push(lines.push(f[0]), f[1]);
                lemma_unlines_push(lines.push(f[0]).push(f[1]), f[2]);
                lemma_unlines_push(lines.push(f[0]).push(f[1]).push(f[2]), f[3]);
                assert(lines.push(f[0]).push(f[1]).push(f[2]).push(f[3]) =~= record_lines(r@));
            }
        },
        None => {
            assert(lines =~= record_lines(r@));
        },
    }
    out.as_str().as_bytes_vec()
}

/// A number below 16 as a lowercase hex digit.
pub open spec fn nibble(n: int) -> char {
    if n < 10 {
        (48 + n) as char
    } else {
        (87 + n) as char
    }
}

/// Bytes in lowercase hex, two digits each.
pub open spec fn hex_text(b: Seq<u8>) -> Seq<char>
    decreases b.len(),
{
    if b.len() == 0 {
        Seq::empty()
    } else {
        hex_text(b.drop_last()) + seq![nibble(b.last() as int / 16), nibble(b.last() as int % 16)]
    }
}

/// A number below 16 as a lowercase hex digit.
fn hex_char(n: u8) -> (r: char)
    requires
        n < 16,
    ensures
        r == nibble(n as int),
{
    if n < 10 {
        (48 + n) as char
    } else {
        (87 + n) as char
    }
}

/// Bytes in lowercase hex.
pub fn hex(b: &[u8]) -> (r: String)
    ensures
        r@ == hex_text(b@),
{
    let mut out = String::new();
    let mut i: usize = 0;
    assert(b@.take(0) =~= Seq::<u8>::empty());
    assert(out@ =~= hex_text(b@.take(0)));
    while i < b.len()
        invariant
            i <= b@.len(),
            out@ == hex_text(b@.take(i as int)),
        decreases b.len() - i,
    {
        let ghost before = out@;
        out.push(hex_char(b[i] / 16));
        out.push(hex_char(b[i] % 16));
        proof {
            assert(b@.take(i + 1).drop_last() =~= b@.take(i as int));
            assert(b@.take(i + 1).last() == b@[i as int]);
            assert(out@ =~= before + seq![
                nibble(b@[i as int] as int / 16),
                nibble(b@[i as int] as int % 16),
            ]);
        }
        i += 1;
    }
    assert(b@.take(i as int) =~= b@);
    out
}

// --- the checks ---------------------------------------------------------------------------------

/// A failed check.
#[derive(Debug, PartialEq, Eq)]
pub struct Failure {
    /// Which check, A to E.
    pub step: char,
    pub why: String,
}

/// A failed check by its contents.
#[verifier::ext_equal]
pub struct FailureState {
    pub step: char,
    pub why: Seq<char>,
}

impl View for Failure {
    type V = FailureState;

    open spec fn view(&self) -> FailureState {
        FailureState { step: self.step, why: self.why@ }
    }
}

/// The labels at which a certificate holds the certified data of a canister.
pub open spec fn certified_path(canister: Seq<u8>) -> Seq<Seq<u8>> {
    three_labels(encode_utf8("canister"@), canister, encode_utf8("certified_data"@))
}

/// The certified data of a canister in the tree of a certificate, or why
/// there is none to find.
pub open spec fn certified_data_of(t: Shape, canister: Seq<u8>) -> Result<Seq<u8>, Seq<char>> {
    value_at(t, encode_utf8("canister"@), canister, encode_utf8("certified_data"@))
}

/// Whether a certificate certifies data of a canister.
pub open spec fn certifies(certificate: Seq<u8>, canister: Seq<u8>, data: Seq<u8>) -> bool {
    &&& certificate_in(certificate) matches Ok(t)
    &&& certified_data_of(t, canister) matches Ok(d)
    &&& d == data
}

/// Why an answer has no certificate to check.
pub open spec fn certificate_fault(certificate: Option<Seq<u8>>) -> Option<FailureState> {
    match certificate {
        Some(_) => None,
        None => Some(FailureState { step: 'A', why: "no certificate in the answer"@ }),
    }
}

/// Why the certificate does not decode, or the witness is not what it
/// certifies.
pub open spec fn root_fault(certificate: Seq<u8>, canister: Seq<u8>, witness: Seq<u8>) -> Option<
    FailureState,
> {
    match certificate_in(certificate) {
        Err(e) => Some(FailureState { step: 'A', why: "certificate cbor: "@ + e }),
        Ok(c) => match certified_data_of(c, canister) {
            Err(e) => Some(
                FailureState { step: 'B', why: "certified_data not in certificate: "@ + e },
            ),
            Ok(data) => witness_fault(data, witness),
        },
    }
}

/// Why a witness does not have the certified digest.
pub open spec fn witness_fault(data: Seq<u8>, witness: Seq<u8>) -> Option<FailureState> {
    match tree_in(witness) {
        Err(e) => Some(FailureState { step: 'B', why: "witness cbor: "@ + e }),
        Ok(t) => if data == digest_of(t) {
            None
        } else {
            Some(
                FailureState {
                    step: 'B',
                    why: "witness root "@ + hex_text(digest_of(t)) + " != certified_data "@
                        + hex_text(data),
                },
            )
        },
    }
}

/// How a lookup that finds nothing is told.
pub open spec fn miss_text(l: LookupState) -> Seq<char> {
    match l {
        LookupState::Found(_) => "Found"@,
        LookupState::Absent => "Absent"@,
        LookupState::Unknown => "Unknown"@,
        LookupState::Error => "Error"@,
    }
}

/// Why a record is not a leaf of the witness.
pub open spec fn leaf_fault(t: Shape, r: RecordState) -> Option<FailureState> {
    let found = looked_up(t, encode_utf8("names"@), encode_utf8(r.name));
    match found {
        LookupState::Found(got) => if got == canonical_bytes(r) {
            None
        } else {
            Some(
                FailureState {
                    step: 'C',
                    why: "leaf for "@ + r.name
                        + " differs from the returned record:\n--- leaf\n"@ + lossy_text(got)
                        + "--- record\n"@ + canonical_text(r),
                },
            )
        },
        _ => Some(
            FailureState {
                step: 'C',
                why: "no leaf for "@ + r.name + " in witness: "@ + miss_text(found),
            },
        ),
    }
}

/// Why some record of a chain is not a leaf of the witness: the first one.
pub open spec fn leaves_fault(t: Shape, chain: Seq<RecordState>) -> Option<FailureState>
    decreases chain.len(),
{
    if chain.len() == 0 {
        None
    } else {
        match leaves_fault(t, chain.drop_last()) {
            Some(f) => Some(f),
            None => leaf_fault(t, chain.last()),
        }
    }
}

/// A failure of the chain.
pub open spec fn bad_chain(why: Seq<char>) -> Option<FailureState> {
    Some(FailureState { step: 'D', why })
}

/// How a target prints for debugging.
pub open spec fn target_debug(t: TargetState) -> Seq<char> {
    match t {
        TargetState::Address(p) => "Address("@ + principal_debug(p) + ")"@,
        TargetState::Alias(n) => "Alias("@ + text_debug(n) + ")"@,
    }
}

/// Why some record of a chain does not alias the next: the first one.
pub open spec fn links_fault(chain: Seq<RecordState>) -> Option<FailureState>
    decreases chain.len(),
{
    if chain.len() < 2 {
        None
    } else {
        let (a, b) = (chain[chain.len() - 2], chain.last());
        match links_fault(chain.drop_last()) {
            Some(f) => Some(f),
            None => if a.target == TargetState::Alias(b.name) {
                None
            } else {
                bad_chain(
                    a.name + " does not alias "@ + b.name + ": "@ + target_debug(a.target),
                )
            },
        }
    }
}

/// Why a chain is not what it claims.
pub open spec fn chain_fault(
    asked: Seq<char>,
    name: Seq<char>,
    canister: Seq<u8>,
    chain: Seq<RecordState>,
) -> Option<FailureState> {
    if name != asked {
        bad_chain("answer is for "@ + name + " not "@ + asked)
    } else if chain.len() == 0 {
        bad_chain("empty chain"@)
    } else if chain[0].name != name {
        bad_chain("chain starts at "@ + chain[0].name + " not "@ + name)
    } else if links_fault(chain) is Some {
        links_fault(chain)
    } else if chain.last().target != TargetState::Address(canister) {
        bad_chain(
            "last record "@ + chain.last().name + " is not the answer's address: "@ + target_debug(
                chain.last().target,
            ),
        )
    } else {
        None
    }
}

/// Why an answer is refused by checks B to D.
pub open spec fn answer_fault(
    certificate: Seq<u8>,
    registry: Seq<u8>,
    asked: Seq<char>,
    name: Seq<char>,
    canister: Seq<u8>,
    chain: Seq<RecordState>,
    witness: Seq<u8>,
) -> Option<FailureState> {
    if root_fault(certificate, registry, witness) is Some {
        root_fault(certificate, registry, witness)
    } else if leaves_fault(tree_in(witness)->Ok_0, chain) is Some {
        leaves_fault(tree_in(witness)->Ok_0, chain)
    } else {
        chain_fault(asked, name, canister, chain)
    }
}

/// Why a record's pinned module hash is not the live one of its target.
pub open spec fn module_fault(r: RecordState, live: Option<Seq<u8>>) -> Option<FailureState> {
    match text_value(r.text, "module_hash"@) {
        None => None,
        Some(pinned) => match live {
            None => Some(
                FailureState {
                    step: 'E',
                    why: r.name + " pins module hash "@ + pinned + " but the target has no module"@,
                },
            ),
            Some(h) => if hex_text(h) == pinned {
                None
            } else {
                Some(
                    FailureState {
                        step: 'E',
                        why: r.name + " pins module hash "@ + pinned + " but the target runs "@
                            + hex_text(h),
                    },
                )
            },
        },
    }
}

/// The certificate of an answer.
pub fn certificate_of(answer: &Resolved) -> (r: Result<Vec<u8>, Failure>)
    ensures
        r is Ok <==> certificate_fault(seen(answer.certificate)) is None,
        r matches Ok(c) ==> seen(answer.certificate) == Some(c@),
        r matches Err(f) ==> certificate_fault(seen(answer.certificate)) == Some(f@),
{
    match &answer.certificate {
        Some(c) => Ok(vstd::slice::slice_to_vec(c.as_slice())),
        None => Err(Failure { step: 'A', why: "no certificate in the answer".to_string() }),
    }
}

/// Check B: the certificate decodes and the witness is what it certifies.
/// Gives the witness tree.
fn check_root(certificate: &[u8], canister: &Principal, witness: &[u8]) -> (r: Result<
    ProofTree,
    Failure,
>)
    ensures
        r is Ok <==> root_fault(certificate@, canister@, witness@) is None,
        r matches Err(f) ==> root_fault(certificate@, canister@, witness@) == Some(f@),
        r matches Ok(t) ==> tree_in(witness@) == Ok::<Shape, Seq<char>>(t@) && reveals(
            certificate_in(certificate@)->Ok_0,
            certified_path(canister@),
            digest_of(t@),
        ),
{
    let cert = match decode_certificate(certificate) {
        Err(e) => {
            return Err(Failure { step: 'A', why: join2("certificate cbor: ", e.as_str()) });
        },
        Ok(c) => c,
    };
    let data = match lookup_value(
        &cert,
        "canister".as_bytes(),
        canister.as_slice(),
        "certified_data".as_bytes(),
    ) {
        Err(e) => {
            return Err(
                Failure {
                    step: 'B',
                    why: join2("certified_data not in certificate: ", e.as_str()),
                },
            );
        },
        Ok(d) => d,
    };
    let tree = match decode_tree(witness) {
        Err(e) => {
            return Err(Failure { step: 'B', why: join2("witness cbor: ", e.as_str()) });
        },
        Ok(t) => t,
    };
    let digest = tree.digest();
    if !same_bytes(data.as_slice(), digest.as_slice()) {
        return Err(
            Failure {
                step: 'B',
                why: join4(
                    "witness root ",
                    hex(digest.as_slice()).as_str(),
                    " != certified_data ",
                    hex(data.as_slice()).as_str(),
                ),
            },
        );
    }
    Ok(tree)
}

/// Whether a tree reveals the canonical bytes of a record under its name.
pub open spec fn shows_leaf(t: Shape, r: RecordState) -> bool {
    reveals(t, two_labels(encode_utf8("names"@), encode_utf8(r.name)), canonical_bytes(r))
}

/// Whether a tree reveals the canonical bytes of every record of a chain.
pub open spec fn shows_chain(t: Shape, chain: Seq<RecordState>) -> bool {
    forall|i: int| 0 <= i < chain.len() ==> shows_leaf(t, #[trigger] chain[i])
}

/// A record is a leaf of the witness.
fn check_leaf(tree: &ProofTree, r: &Record) -> (out: Result<(), Failure>)
    ensures
        out is Ok <==> leaf_fault(tree@, r@) is None,
        out matches Err(f) ==> leaf_fault(tree@, r@) == Some(f@),
        out is Ok ==> shows_leaf(tree@, r@),
        orderly(tree@) && shows_leaf(tree@, r@) ==> out is Ok,
{
    let want = canonical(r);
    let ghost path = two_labels(encode_utf8("names"@), encode_utf8(r@.name));
    let miss = match tree.lookup("names".as_bytes(), r.name.as_str().as_bytes()) {
        Lookup::Found(got) => {
            if same_bytes(got.as_slice(), want.as_slice()) {
                return Ok(());
            }
            proof {
                if orderly(tree@) && shows_leaf(tree@, r@) {
                    lemma_reveals_one(tree@, path, got@, want@);
                }
            }
            let leaf = text_from_utf8_lossy(got.as_slice());
            let record = text_from_utf8_lossy(want.as_slice());
            proof {
                encode_utf8_valid_utf8(canonical_text(r@));
                encode_utf8_decode_utf8(canonical_text(r@));
            }
            let mut why = join3(
                "leaf for ",
                r.name.as_str(),
                " differs from the returned record:\n--- leaf\n",
            );
            why.append(leaf.as_str());
            why.append("--- record\n");
            why.append(record.as_str());
            return Err(Failure { step: 'C', why });
        },
        Lookup::Absent => "Absent",
        Lookup::Unknown => "Unknown",
        Lookup::Error => "Error",
    };
    Err(
        Failure { step: 'C', why: join4("no leaf for ", r.name.as_str(), " in witness: ", miss) },
    )
}

/// Check C: every record of the chain is a leaf of the witness.
fn check_leaves(tree: &ProofTree, chain: &Vec<Record>) -> (r: Result<(), Failure>)
    ensures
        r is Ok <==> leaves_fault(tree@, views(chain@)) is None,
        r matches Err(f) ==> leaves_fault(tree@, views(chain@)) == Some(f@),
        r is Ok ==> shows_chain(tree@, views(chain@)),
        orderly(tree@) && shows_chain(tree@, views(chain@)) ==> r is Ok,
{
    let ghost all = views(chain@);
    let mut i: usize = 0;
    assert(all.take(0) =~= Seq::<RecordState>::empty());
    while i < chain.len()
        invariant
            i <= chain@.len(),
            all == views(chain@),
            leaves_fault(tree@, all.take(i as int)) is None,
            forall|j: int| 0 <= j < i ==> shows_leaf(tree@, #[trigger] all[j]),
        decreases chain.len() - i,
    {
        proof {
            assert(all[i as int] == chain@[i as int]@);
            assert(all.take(i + 1).drop_last() =~= all.take(i as int));
            assert(all.take(i + 1).last() == chain@[i as int]@);
        }
        match check_leaf(tree, &chain[i]) {
            Err(f) => {
                proof {
                    lemma_first_leaf_fault(tree@, all, i as int);
                }
                return Err(f);
            },
            Ok(_) => {},
        }
        i += 1;
    }
    assert(all.take(i as int) =~= all);
    Ok(())
}

/// The first failing leaf is what a whole chain fails for.
proof fn lemma_first_leaf_fault(t: Shape, chain: Seq<RecordState>, i: int)
    requires
        0 <= i < chain.len(),
        leaves_fault(t, chain.take(i)) is None,
        leaf_fault(t, chain[i]) is Some,
    ensures
        leaves_fault(t, chain) == leaf_fault(t, chain[i]),
    decreases chain.len(),
{
    if i == chain.len() - 1 {
        assert(chain.drop_last() =~= chain.take(i));
    } else {
        assert(chain.drop_last().take(i) =~= chain.take(i));
        lemma_first_leaf_fault(t, chain.drop_last(), i);
    }
}

/// The first failing link is what a whole chain fails for.
proof fn lemma_first_link_fault(chain: Seq<RecordState>, i: int)
    requires
        0 <= i < chain.len(),
        links_fault(chain.take(i + 1)) is Some,
    ensures
        links_fault(chain) == links_fault(chain.take(i + 1)),
    decreases chain.len(),
{
    if i == chain.len() - 1 {
        assert(chain.take(i + 1) =~= chain);
    } else {
        assert(chain.drop_last().take(i + 1) =~= chain.take(i + 1));
        lemma_first_link_fault(chain.drop_last(), i);
    }
}

/// A target as it prints for debugging.
fn told_target(t: &Target) -> (r: String)
    ensures
        r@ == target_debug(t@),
{
    match t {
        Target::Address(p) => join3("Address(", p.to_debug().as_str(), ")"),
        Target::Alias(n) => join3("Alias(", debug_text(n.as_str()).as_str(), ")"),
    }
}

/// Every record of a chain aliases the next.
fn check_links(chain: &Vec<Record>) -> (r: Result<(), Failure>)
    ensures
        r is Ok <==> links_fault(views(chain@)) is None,
        r matches Err(f) ==> links_fault(views(chain@)) == Some(f@),
{
    let ghost all = views(chain@);
    let mut i: usize = 1;
    if chain.len() == 0 {
        return Ok(());
    }
    while i < chain.len()
        invariant
            1 <= i <= chain@.len(),
            all == views(chain@),
            links_fault(all.take(i as int)) is None,
        decreases chain.len() - i,
    {
        let ghost part = all.take(i + 1);
        proof {
            assert(part.drop_last() =~= all.take(i as int));
            assert(part.last() == chain@[i as int]@);
            assert(part[part.len() - 2] == chain@[i - 1]@);
        }
        let ok = match &chain[i - 1].target {
            Target::Alias(n) => same_text(n.as_str(), chain[i].name.as_str()),
            Target::Address(_) => false,
        };
        if !ok {
            proof {
                assert(links_fault(part) is Some);
                lemma_first_link_fault(all, i as int);
            }
            let mut why = join4(
                chain[i - 1].name.as_str(),
                " does not alias ",
                chain[i].name.as_str(),
                ": ",
            );
            why.append(told_target(&chain[i - 1].target).as_str());
            return Err(Failure { step: 'D', why });
        }
        i += 1;
    }
    assert(all.take(i as int) =~= all);
    Ok(())
}

/// Check D: the chain is what it claims.
fn check_chain(asked: &str, answer: &Resolved) -> (r: Result<(), Failure>)
    ensures
        r is Ok <==> chain_fault(
            asked@,
            answer.name@,
            answer.canister@,
            views(answer.chain@),
        ) is None,
        r matches Err(f) ==> chain_fault(
            asked@,
            answer.name@,
            answer.canister@,
            views(answer.chain@),
        ) == Some(f@),
{
    let ghost chain = views(answer.chain@);
    if !same_text(answer.name.as_str(), asked) {
        return Err(
            Failure {
                step: 'D',
                why: join4("answer is for ", answer.name.as_str(), " not ", asked),
            },
        );
    }
    let n: usize = answer.chain.len();
    if n == 0 {
        return Err(Failure { step: 'D', why: "empty chain".to_string() });
    }
    let first = &answer.chain[0];
    assert(chain[0] == first@);
    if !same_text(first.name.as_str(), answer.name.as_str()) {
        return Err(
            Failure {
                step: 'D',
                why: join4(
                    "chain starts at ",
                    first.name.as_str(),
                    " not ",
                    answer.name.as_str(),
                ),
            },
        );
    }
    match check_links(&answer.chain) {
        Err(f) => {
            return Err(f);
        },
        Ok(_) => {},
    }
    let last = &answer.chain[n - 1];
    assert(chain.last() == last@);
    let ends = match &last.target {
        Target::Address(p) => p.same(&answer.canister),
        Target::Alias(_) => false,
    };
    if !ends {
        return Err(
            Failure {
                step: 'D',
                why: join4(
                    "last record ",
                    last.name.as_str(),
                    " is not the answer's address: ",
                    told_target(&last.target).as_str(),
                ),
            },
        );
    }
    Ok(())
}

/// Whether an answer is what the certificate proves: the witness is a tree
/// in order with the certified digest, it shows every record of the chain,
/// and the chain leads from the name asked for to the canister.
pub open spec fn proves(
    certificate: Seq<u8>,
    registry: Seq<u8>,
    asked: Seq<char>,
    name: Seq<char>,
    canister: Seq<u8>,
    chain: Seq<RecordState>,
    witness: Seq<u8>,
) -> bool {
    &&& tree_in(witness) matches Ok(t)
    &&& orderly(t)
    &&& certifies(certificate, registry, digest_of(t))
    &&& shows_chain(t, chain)
    &&& chain_fault(asked, name, canister, chain) is None
}

/// Checks B to D, given a certificate whose signature was checked. Gives the
/// digest of the witness.
pub fn check_answer(certificate: &[u8], registry: &Principal, asked: &str, answer: &Resolved) -> (r:
    Result<[u8; 32], Failure>)
    ensures
        r is Ok <==> answer_fault(
            certificate@,
            registry@,
            asked@,
            answer.name@,
            answer.canister@,
            views(answer.chain@),
            answer.witness@,
        ) is None,
        r matches Err(f) ==> answer_fault(
            certificate@,
            registry@,
            asked@,
            answer.name@,
            answer.canister@,
            views(answer.chain@),
            answer.witness@,
        ) == Some(f@),
        r matches Ok(d) ==> certifies(certificate@, registry@, d@) && reveals(
            certificate_in(certificate@)->Ok_0,
            certified_path(registry@),
            d@,
        ),
        r is Ok ==> shows_chain(tree_in(answer.witness@)->Ok_0, views(answer.chain@)),
        proves(
            certificate@,
            registry@,
            asked@,
            answer.name@,
            answer.canister@,
            views(answer.chain@),
            answer.witness@,
        ) ==> r is Ok,
{
    let tree = match check_root(certificate, registry, answer.witness.as_slice()) {
        Err(f) => {
            return Err(f);
        },
        Ok(t) => t,
    };
    match check_leaves(&tree, &answer.chain) {
        Err(f) => {
            return Err(f);
        },
        Ok(_) => {},
    }
    match check_chain(asked, answer) {
        Err(f) => {
            return Err(f);
        },
        Ok(_) => {},
    }
    Ok(tree.digest())
}

/// Check E: a module hash that the last record pins is the target's live
/// one.
pub fn check_module(r: &Record, live: &Option<Vec<u8>>) -> (out: Result<(), Failure>)
    ensures
        out is Ok <==> module_fault(r@, seen(*live)) is None,
        out matches Err(f) ==> module_fault(r@, seen(*live)) == Some(f@),
{
    let pinned = match r.text("module_hash") {
        None => {
            return Ok(());
        },
        Some(p) => p,
    };
    match live {
        None => Err(
            Failure {
                step: 'E',
                why: join4(
                    r.name.as_str(),
                    " pins module hash ",
                    pinned.as_str(),
                    " but the target has no module",
                ),
            },
        ),
        Some(h) => {
            let runs = hex(h.as_slice());
            if same_text(runs.as_str(), pinned.as_str()) {
                Ok(())
            } else {
                Err(
                    Failure {
                        step: 'E',
                        why: join5(
                            r.name.as_str(),
                            " pins module hash ",
                            pinned.as_str(),
                            " but the target runs ",
                            runs.as_str(),
                        ),
                    },
                )
            }
        },
    }
}

/// The warnings that come with an answer: one for every record of its chain
/// that changed hands.
pub open spec fn warnings_of(chain: Seq<RecordState>) -> Seq<Seq<char>>
    decreases chain.len(),
{
    if chain.len() == 0 {
        Seq::empty()
    } else {
        let rest = warnings_of(chain.drop_last());
        if chain.last().previous_target is Some {
            rest.push(handover_note(chain.last()))
        } else {
            rest
        }
    }
}

/// The warnings that come with an answer.
pub fn warnings(chain: &Vec<Record>) -> (r: Vec<String>)
    ensures
        texts(r@) == warnings_of(views(chain@)),
{
    let ghost all = views(chain@);
    let mut out: Vec<String> = Vec::new();
    let mut i: usize = 0;
    proof {
        assert(all.take(0) =~= Seq::<RecordState>::empty());
        assert(texts(out@) =~= warnings_of(all.take(0)));
    }
    while i < chain.len()
        invariant
            i <= chain@.len(),
            all == views(chain@),
            texts(out@) == warnings_of(all.take(i as int)),
        decreases chain.len() - i,
    {
        let ghost before = out@;
        proof {
            assert(all.take(i + 1).drop_last() =~= all.take(i as int));
            assert(all.take(i + 1).last() == chain@[i as int]@);
        }
        match note(&chain[i]) {
            Some(w) => {
                out.push(w);
                assert(texts(out@) =~= texts(before).push(w@));
            },
            None => {},
        }
        i += 1;
    }
    assert(all.take(i as int) =~= all);
    out
}

// --- what the checks promise ---------------------------------------------------------------------

/// A witness shows at most one record of a name: an answer that passes check
/// C with some record would fail it with any other.
pub proof fn law_witness_shows_one_record(t: Shape, a: RecordState, b: RecordState)
    ensures
        orderly(t) && shows_leaf(t, a) && shows_leaf(t, b) && a.name == b.name && legible(a)
            && legible(b) ==> a == b,
{
    if orderly(t) && shows_leaf(t, a) && shows_leaf(t, b) && a.name == b.name && legible(a)
        && legible(b) {
        lemma_reveals_one(
            t,
            two_labels(encode_utf8("names"@), encode_utf8(a.name)),
            canonical_bytes(a),
            canonical_bytes(b),
        );
        law_leaf_is_one_record(a, b);
    }
}

/// A record forged after it was certified is not shown by the witness.
pub proof fn law_forged_record_is_not_shown(t: Shape, r: RecordState)
    ensures
        orderly(t) && shows_leaf(t, r) && legible(r) && r.updated_ns < u64::MAX ==> !shows_leaf(
            t,
            nudged(r),
        ),
{
    if orderly(t) && shows_leaf(t, r) && legible(r) && r.updated_ns < u64::MAX {
        assert(legible(nudged(r)));
        law_witness_shows_one_record(t, r, nudged(r));
    }
}

/// What a sound registry resolves is accepted: with a certificate over its
/// root, the answer it gives proves itself, so every check passes.
pub proof fn law_honest_answer_is_proved(
    reg: Registry,
    registry: Seq<u8>,
    certificate: Seq<u8>,
    name: Seq<char>,
    now: u64,
)
    ensures
        ({
            let r = resolution(reg@.store, name, now);
            let chain = r->Ok_0.1;
            let shape = witness_shape(reg.tree, chain_names(chain));
            sound(reg@) && r is Ok && is_witness(shape, reg.tree, chain_names(chain)) && tree_in(
                tree_cbor(shape),
            ) == holds_tree(shape) && certifies(
                certificate,
                registry,
                digest_of(certified(reg.tree.shape())),
            ) ==> proves(
                certificate,
                registry,
                name,
                name,
                r->Ok_0.0,
                chain,
                tree_cbor(shape),
            )
        }),
{
    let s = reg@.store;
    let r = resolution(s, name, now);
    let chain = r->Ok_0.1;
    let shape = witness_shape(reg.tree, chain_names(chain));
    if sound(reg@) && r is Ok && is_witness(shape, reg.tree, chain_names(chain)) {
        law_resolution_is_certified(reg, name, now);
        assert(shows_chain(shape, chain));
        assert(keyed_by_name(s)) by {
            assert forall|n: Seq<char>| #[trigger] s.records.contains_key(
                n,
            ) implies s.records[n].name == n by {
                assert(crate::registry::good_record(s.handles, n, s.records[n]));
            }
        }
        law_resolution_leads(s, name, now);
        lemma_linked(chain);
    }
}

/// A chain whose records alias each other has no broken link.
proof fn lemma_linked(chain: Seq<RecordState>)
    requires
        forall|i: int|
            0 <= i < chain.len() - 1 ==> (#[trigger] chain[i]).target == TargetState::Alias(
                chain[i + 1].name,
            ),
    ensures
        links_fault(chain) is None,
    decreases chain.len(),
{
    if chain.len() >= 2 {
        let rest = chain.drop_last();
        assert forall|i: int| 0 <= i < rest.len() - 1 implies (#[trigger] rest[i]).target
            == TargetState::Alias(rest[i + 1].name) by {
            assert(chain[i].target == TargetState::Alias(chain[i + 1].name));
        }
        lemma_linked(rest);
        assert(chain[chain.len() - 2].target == TargetState::Alias(chain[chain.len() - 1].name));
    }
}

/// An accepted answer leads where it says: its chain starts at the name
/// asked for, each record aliases the next, and the last one is the address
/// of the canister it gives.
pub proof fn law_accepted_chain_leads(
    asked: Seq<char>,
    name: Seq<char>,
    canister: Seq<u8>,
    chain: Seq<RecordState>,
)
    requires
        chain_fault(asked, name, canister, chain) is None,
    ensures
        chain.len() > 0,
        chain[0].name == asked,
        forall|i: int|
            0 <= i < chain.len() - 1 ==> (#[trigger] chain[i]).target == TargetState::Alias(
                chain[i + 1].name,
            ),
        chain.last().target == TargetState::Address(canister),
{
    lemma_links_hold(chain);
}

proof fn lemma_links_hold(chain: Seq<RecordState>)
    requires
        links_fault(chain) is None,
    ensures
        forall|i: int|
            0 <= i < chain.len() - 1 ==> (#[trigger] chain[i]).target == TargetState::Alias(
                chain[i + 1].name,
            ),
    decreases chain.len(),
{
    if chain.len() >= 2 {
        let rest = chain.drop_last();
        lemma_links_hold(rest);
        assert forall|i: int| 0 <= i < chain.len() - 1 implies (#[trigger] chain[i]).target
            == TargetState::Alias(chain[i + 1].name) by {
            if i < chain.len() - 2 {
                assert(rest[i] == chain[i]);
            }
        }
    }
}

/// Whether a chain leads from a name to a canister: it starts at the name,
/// each record aliases the next, and the last one is the canister's address.
pub open spec fn chain_leads(asked: Seq<char>, canister: Seq<u8>, chain: Seq<RecordState>) -> bool {
    &&& chain.len() > 0
    &&& chain[0].name == asked
    &&& forall|i: int|
        0 <= i < chain.len() - 1 ==> (#[trigger] chain[i]).target == TargetState::Alias(
            chain[i + 1].name,
        )
    &&& chain.last().target == TargetState::Address(canister)
}

/// Check D passes exactly for an answer to the name asked for whose chain
/// leads from there to the canister that the answer gives.
pub proof fn law_check_d_passes_chains_that_lead(
    asked: Seq<char>,
    name: Seq<char>,
    canister: Seq<u8>,
    chain: Seq<RecordState>,
)
    ensures
        chain_fault(asked, name, canister, chain) is None <==> name == asked && chain_leads(
            asked,
            canister,
            chain,
        ),
        chain_fault(asked, name, canister, chain) matches Some(f) ==> f.step == 'D',
{
    lemma_link_steps(chain);
    if links_fault(chain) is None {
        lemma_links_hold(chain);
    }
    if chain_leads(asked, canister, chain) {
        lemma_linked(chain);
    }
}

/// A broken link is a failure of check D.
proof fn lemma_link_steps(chain: Seq<RecordState>)
    ensures
        links_fault(chain) matches Some(f) ==> f.step == 'D',
    decreases chain.len(),
{
    if chain.len() >= 2 {
        lemma_link_steps(chain.drop_last());
    }
}

/// Whether a witness holds the certified form of every record of a chain
/// where it is looked up.
pub open spec fn holds_chain(t: Shape, chain: Seq<RecordState>) -> bool {
    forall|i: int|
        0 <= i < chain.len() ==> looked_up(
            t,
            encode_utf8("names"@),
            encode_utf8((#[trigger] chain[i]).name),
        ) == LookupState::Found(canonical_bytes(chain[i]))
}

/// Check C passes exactly where the witness holds every record.
proof fn lemma_leaves(t: Shape, chain: Seq<RecordState>)
    ensures
        leaves_fault(t, chain) is None <==> holds_chain(t, chain),
        leaves_fault(t, chain) matches Some(f) ==> f.step == 'C',
    decreases chain.len(),
{
    if chain.len() > 0 {
        let rest = chain.drop_last();
        lemma_leaves(t, rest);
        if holds_chain(t, chain) {
            assert forall|i: int| 0 <= i < rest.len() implies looked_up(
                t,
                encode_utf8("names"@),
                encode_utf8((#[trigger] rest[i]).name),
            ) == LookupState::Found(canonical_bytes(rest[i])) by {
                assert(rest[i] == chain[i]);
            }
            assert(chain[chain.len() - 1] == chain.last());
        }
        if leaves_fault(t, chain) is None {
            assert forall|i: int| 0 <= i < chain.len() implies looked_up(
                t,
                encode_utf8("names"@),
                encode_utf8((#[trigger] chain[i]).name),
            ) == LookupState::Found(canonical_bytes(chain[i])) by {
                if i < rest.len() {
                    assert(rest[i] == chain[i]);
                }
            }
        }
    }
}

/// An answer passes exactly where the certificate holds the witness's digest
/// as the registry's certified data, the witness holds every record of the
/// chain, and the chain leads from the name asked for to the canister; and a
/// refusal names the first check that failed.
pub proof fn law_answers_pass_on_proof_alone(
    certificate: Seq<u8>,
    registry: Seq<u8>,
    asked: Seq<char>,
    name: Seq<char>,
    canister: Seq<u8>,
    chain: Seq<RecordState>,
    witness: Seq<u8>,
)
    ensures
        ({
            let fault = answer_fault(certificate, registry, asked, name, canister, chain, witness);
            let tree = tree_in(witness);
            let rooted = certificate_in(certificate) is Ok && tree is Ok && value_at(
                certificate_in(certificate)->Ok_0,
                encode_utf8("canister"@),
                registry,
                encode_utf8("certified_data"@),
            ) == Ok::<Seq<u8>, Seq<char>>(digest_of(tree->Ok_0));
            let shown = holds_chain(tree->Ok_0, chain);
            let led = name == asked && chain_leads(asked, canister, chain);
            &&& fault is None <==> rooted && shown && led
            &&& certificate_in(certificate) is Err ==> fault is Some && fault->0.step == 'A'
            &&& certificate_in(certificate) is Ok && !rooted ==> fault is Some && fault->0.step
                == 'B'
            &&& rooted && !shown ==> fault is Some && fault->0.step == 'C'
            &&& rooted && shown && !led ==> fault is Some && fault->0.step == 'D'
        }),
{
    law_check_d_passes_chains_that_lead(asked, name, canister, chain);
    lemma_leaves(tree_in(witness)->Ok_0, chain);
}

/// Hex text has two digits for each byte, the high one first.
pub proof fn law_hex_is_two_digits_a_byte(b: Seq<u8>, i: int)
    requires
        0 <= i < b.len(),
    ensures
        hex_text(b).len() == 2 * b.len(),
        digit_value(hex_text(b)[2 * i]) == b[i] as int / 16,
        digit_value(hex_text(b)[2 * i + 1]) == b[i] as int % 16,
    decreases b.len(),
{
    let rest = b.drop_last();
    let n = b.last() as int;
    assert(0 <= n / 16 < 16 && 0 <= n % 16 < 16);
    assert(digit_value(nibble(n / 16)) == n / 16);
    assert(digit_value(nibble(n % 16)) == n % 16);
    if rest.len() > 0 {
        law_hex_is_two_digits_a_byte(rest, if i < rest.len() {
            i
        } else {
            0
        });
    } else {
        assert(hex_text(rest) =~= Seq::<char>::empty());
    }
}

/// The value of a lowercase hex digit, -1 for another character.
pub open spec fn digit_value(c: char) -> int {
    if '0' <= c <= '9' {
        c as int - 48
    } else if 'a' <= c <= 'f' {
        c as int - 87
    } else {
        -1
    }
}

/// Different bytes are different in hex.
pub proof fn law_hex_tells_bytes_apart(a: Seq<u8>, b: Seq<u8>)
    ensures
        hex_text(a) == hex_text(b) <==> a == b,
{
    if hex_text(a) == hex_text(b) {
        if a.len() > 0 {
            law_hex_is_two_digits_a_byte(a, 0);
        } else {
            assert(hex_text(a).len() == 0);
        }
        if b.len() > 0 {
            law_hex_is_two_digits_a_byte(b, 0);
        } else {
            assert(hex_text(b).len() == 0);
        }
        assert(a.len() == b.len());
        assert forall|i: int| 0 <= i < a.len() implies a[i] == b[i] by {
            law_hex_is_two_digits_a_byte(a, i);
            law_hex_is_two_digits_a_byte(b, i);
            let (x, y) = (a[i] as int, b[i] as int);
            assert(x == 16 * (x / 16) + x % 16);
            assert(y == 16 * (y / 16) + y % 16);
        }
        assert(a =~= b);
    }
}

/// Check E passes exactly where the record pins no module hash, or the
/// target runs a module and its hash is the pinned one.
pub proof fn law_check_e_holds_the_pin(r: RecordState, live: Option<Seq<u8>>, hash: Seq<u8>)
    ensures
        text_value(r.text, "module_hash"@) is None ==> module_fault(r, live) is None,
        text_value(r.text, "module_hash"@) == Some(hex_text(hash)) ==> (module_fault(r, live) is None
            <==> live == Some(hash)),
        module_fault(r, live) matches Some(f) ==> f.step == 'E',
{
    if live is Some {
        law_hex_tells_bytes_apart(live->0, hash);
    }
}

/// There is one warning for each record of a chain that changed hands, in
/// the order of the chain, and none for any other.
pub proof fn law_warnings_are_of_handovers(chain: Seq<RecordState>, last: RecordState)
    ensures
        warnings_of(Seq::empty()).len() == 0,
        last.previous_target is None ==> warnings_of(chain.push(last)) == warnings_of(chain),
        last.previous_target is Some ==> warnings_of(chain.push(last)) == warnings_of(chain).push(
            handover_note(last),
        ),
{
    assert(chain.push(last).drop_last() =~= chain);
}

/// Arguments are read one after the other.
proof fn lemma_args_follow(a: Seq<Seq<char>>, b: Seq<Seq<char>>, s: ArgsState)
    requires
        args_read(a, s) is Ok,
    ensures
        args_read(a + b, s) == args_read(b, args_read(a, s)->Ok_0),
    decreases a.len(),
{
    if a.len() == 0 {
        assert(a + b =~= b);
    } else {
        let x = a[0];
        assert((a + b)[0] == x);
        if x == "--url"@ || x == "--canister"@ || x == "--tamper"@ {
            assert((a + b)[1] == a[1]);
            assert((a + b).skip(2) =~= a.skip(2) + b);
        }
        assert((a + b).skip(1) =~= a.skip(1) + b);
        reveal_strlit("--url");
        reveal_strlit("--canister");
        reveal_strlit("--tamper");
        reveal_strlit("--insecure-local-root-key");
        if x == "--url"@ {
            lemma_args_follow(a.skip(2), b, ArgsState { url: a[1], ..s });
        } else if x == "--canister"@ {
            lemma_args_follow(
                a.skip(2),
                b,
                ArgsState { canister: Some(principal_read(a[1])->Ok_0), ..s },
            );
        } else if x == "--tamper"@ {
            lemma_args_follow(a.skip(2), b, ArgsState { tamper: Some(a[1]), ..s });
        } else if x == "--insecure-local-root-key"@ {
            lemma_args_follow(a.skip(1), b, ArgsState { insecure_local_root_key: true, ..s });
        } else {
            lemma_args_follow(a.skip(1), b, ArgsState { name: Some(x), ..s });
        }
    }
}

/// Each argument says one thing and leaves the rest: wherever it stands
/// after others, it sets its own setting and overrides an earlier one.
pub proof fn law_arguments_set_their_own(a: Seq<Seq<char>>, v: Seq<char>)
    requires
        args_read(a, no_args()) is Ok,
    ensures
        ({
            let s = args_read(a, no_args())->Ok_0;
            &&& args_read(a + seq!["--url"@, v], no_args()) == Ok::<ArgsState, MisuseState>(
                ArgsState { url: v, ..s },
            )
            &&& args_read(a + seq!["--tamper"@, v], no_args()) == Ok::<ArgsState, MisuseState>(
                ArgsState { tamper: Some(v), ..s },
            )
            &&& args_read(a + seq!["--canister"@, v], no_args()) == match principal_read(v) {
                Ok(p) => Ok::<ArgsState, MisuseState>(ArgsState { canister: Some(p), ..s }),
                Err(e) => Err(MisuseState::BadCanister(e)),
            }
            &&& args_read(a + seq!["--insecure-local-root-key"@], no_args()) == Ok::<
                ArgsState,
                MisuseState,
            >(ArgsState { insecure_local_root_key: true, ..s })
            &&& v.len() > 0 && v[0] != '-' ==> args_read(a + seq![v], no_args()) == Ok::<
                ArgsState,
                MisuseState,
            >(ArgsState { name: Some(v), ..s })
            &&& v.len() > 0 && v[0] == '-' && v != "--insecure-local-root-key"@ ==> args_read(
                a + seq![v],
                no_args(),
            ) == Err::<ArgsState, MisuseState>(MisuseState::Usage)
        }),
{
    let s = args_read(a, no_args())->Ok_0;
    reveal_strlit("--url");
    reveal_strlit("--canister");
    reveal_strlit("--tamper");
    reveal_strlit("--insecure-local-root-key");
    reveal_strlit("-");
    lemma_args_follow(a, seq!["--url"@, v], no_args());
    lemma_args_follow(a, seq!["--tamper"@, v], no_args());
    lemma_args_follow(a, seq!["--canister"@, v], no_args());
    lemma_args_follow(a, seq!["--insecure-local-root-key"@], no_args());
    lemma_args_follow(a, seq![v], no_args());
    assert("--url"@.len() == 5 && "--canister"@.len() == 10 && "--tamper"@.len() == 8
        && "--insecure-local-root-key"@.len() == 25);
    assert(seq!["--url"@, v].skip(2) =~= Seq::<Seq<char>>::empty());
    assert(seq!["--tamper"@, v].skip(2) =~= Seq::<Seq<char>>::empty());
    assert(seq!["--canister"@, v].skip(2) =~= Seq::<Seq<char>>::empty());
    assert(seq!["--insecure-local-root-key"@].skip(1) =~= Seq::<Seq<char>>::empty());
    assert(seq![v].skip(1) =~= Seq::<Seq<char>>::empty());
    reveal_with_fuel(args_read, 2);
    if v.len() > 0 {
        assert(v.take(1) =~= seq![v[0]]);
        assert("-"@ =~= seq!['-']);
        assert(begins(v, "-"@) <==> v[0] == '-') by {
            if begins(v, "-"@) {
                assert(v.take(1)[0] == "-"@[0]);
            }
        }
        assert("--url"@[0] == '-' && "--canister"@[0] == '-' && "--tamper"@[0] == '-'
            && "--insecure-local-root-key"@[0] == '-');
    }
}

/// Nothing said is nothing set, and a canister and a name must be said.
pub proof fn law_arguments_default(r: Result<Opts, Misuse>, args: Seq<Seq<char>>)
    requires
        parses(r, args),
        args_read(args, no_args()) is Ok,
    ensures
        args_read(Seq::empty(), no_args()) == Ok::<ArgsState, MisuseState>(
            ArgsState {
                url: "https://icp-api.io"@,
                canister: None,
                name: None,
                tamper: None,
                insecure_local_root_key: false,
            },
        ),
        r is Ok <==> args_read(args, no_args())->Ok_0.canister is Some && args_read(
            args,
            no_args(),
        )->Ok_0.name is Some,
{
}

/// A forged witness differs from the witness in its last byte and nowhere
/// else.
pub proof fn law_forged_witness_differs(witness: Seq<u8>)
    requires
        witness.len() > 0,
    ensures
        flipped(witness).len() == witness.len(),
        flipped(witness).drop_last() == witness.drop_last(),
        flipped(witness).last() != witness.last(),
{
    let b = witness.last();
    assert(b ^ 1 != b) by (bit_vector);
    assert(flipped(witness).drop_last() =~= witness.drop_last());
}

} // verus!
