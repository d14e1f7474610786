//! Handles and records: what a name is, its certified form and its stored
//! form.

use vstd::prelude::*;
use vstd::utf8::*;

use crate::leaf::{lemma_principal_one_line, principals_spelled, spelled};
use crate::order::{
    lemma_before_irreflexive, lemma_before_total, lemma_before_transitive, text_before,
    text_comes_before,
};
use crate::principal::{principal_text, Principal};
use crate::tax::Harberger;
use crate::text::{
    copy_pairs, decimal, decimal_text, join2, join3, lemma_utf8_injective, pairs, same_text, seen,
};

verus! {

// --- types ------------------------------------------------------------------------

/// What a name points at. Address is the terminal case; alias chains to
/// another scoped name and is followed up to a bounded depth.
#[derive(Debug, PartialEq, Eq)]
pub enum Target {
    Address(Principal),
    Alias(String),
}

/// A target by its contents.
#[verifier::ext_equal]
pub enum TargetState {
    Address(Seq<u8>),
    Alias(Seq<char>),
}

impl View for Target {
    type V = TargetState;

    open spec fn view(&self) -> TargetState {
        match self {
            Target::Address(p) => TargetState::Address(p@),
            Target::Alias(n) => TargetState::Alias(n@),
        }
    }
}

impl Clone for Target {
    fn clone(&self) -> (r: Self)
        ensures
            r@ == self@,
    {
        match self {
            Target::Address(p) => Target::Address(p.clone()),
            Target::Alias(n) => Target::Alias(n.clone()),
        }
    }
}

/// A copy of an optional target.
pub fn copy_target(t: &Option<Target>) -> (r: Option<Target>)
    ensures
        seen(r) == seen(*t),
{
    match t {
        Some(t) => Some(t.clone()),
        None => None,
    }
}

/// A copy of an optional principal.
pub fn copy_principal(p: &Option<Principal>) -> (r: Option<Principal>)
    ensures
        seen(r) == seen(*p),
{
    match p {
        Some(p) => Some(p.clone()),
        None => None,
    }
}

/// A handle and who may write under it. `deployer`, if set, is one listed
/// deployer the owner lets announce names here.
#[derive(Debug, PartialEq, Eq)]
pub struct Handle {
    pub owner: Principal,
    pub deployer: Option<Principal>,
}

/// A handle by its contents.
#[verifier::ext_equal]
pub struct HandleState {
    pub owner: Seq<u8>,
    pub deployer: Option<Seq<u8>>,
}

impl View for Handle {
    type V = HandleState;

    open spec fn view(&self) -> HandleState {
        HandleState { owner: self.owner@, deployer: seen(self.deployer) }
    }
}

impl Clone for Handle {
    fn clone(&self) -> (r: Self)
        ensures
            r@ == self@,
    {
        Handle { owner: self.owner.clone(), deployer: copy_principal(&self.deployer) }
    }
}

/// A record.
#[derive(Debug, PartialEq, Eq)]
pub struct Record {
    pub name: String,
    pub owner: Principal,
    pub target: Target,
    /// What a flat name pointed at before it last changed hands.
    pub previous_target: Option<Target>,
    /// Sorted by key, unique keys.
    pub text: Vec<(String, String)>,
    pub created_ns: u64,
    pub updated_ns: u64,
    /// When ownership last changed. Equals created_ns until a transfer.
    pub changed_hands_ns: u64,
    /// The holding, for a flat name.
    pub flat: Option<Harberger>,
}

/// A record by its contents.
#[verifier::ext_equal]
pub struct RecordState {
    pub name: Seq<char>,
    pub owner: Seq<u8>,
    pub target: TargetState,
    pub previous_target: Option<TargetState>,
    pub text: Seq<(Seq<char>, Seq<char>)>,
    pub created_ns: u64,
    pub updated_ns: u64,
    pub changed_hands_ns: u64,
    pub flat: Option<Harberger>,
}

impl View for Record {
    type V = RecordState;

    open spec fn view(&self) -> RecordState {
        RecordState {
            name: self.name@,
            owner: self.owner@,
            target: self.target@,
            previous_target: seen(self.previous_target),
            text: pairs(self.text@),
            created_ns: self.created_ns,
            updated_ns: self.updated_ns,
            changed_hands_ns: self.changed_hands_ns,
            flat: self.flat,
        }
    }
}

impl Clone for Record {
    fn clone(&self) -> (r: Self)
        ensures
            r@ == self@,
    {
        Record {
            name: self.name.clone(),
            owner: self.owner.clone(),
            target: self.target.clone(),
            previous_target: copy_target(&self.previous_target),
            text: copy_pairs(&self.text),
            created_ns: self.created_ns,
            updated_ns: self.updated_ns,
            changed_hands_ns: self.changed_hands_ns,
            flat: self.flat,
        }
    }
}

/// A fresh record: no text records, every timestamp is `now`.
pub open spec fn fresh_record(
    name: Seq<char>,
    owner: Seq<u8>,
    target: TargetState,
    now: u64,
) -> RecordState {
    RecordState {
        name,
        owner,
        target,
        previous_target: None,
        text: Seq::empty(),
        created_ns: now,
        updated_ns: now,
        changed_hands_ns: now,
        flat: None,
    }
}

// --- text records -----------------------------------------------------------------

/// The value of the first text record with this key.
pub open spec fn text_value(text: Seq<(Seq<char>, Seq<char>)>, key: Seq<char>) -> Option<Seq<char>>
    decreases text.len(),
{
    if text.len() == 0 {
        None
    } else if text[0].0 == key {
        Some(text[0].1)
    } else {
        text_value(text.drop_first(), key)
    }
}

/// The text records without those of this key.
pub open spec fn without_key(
    text: Seq<(Seq<char>, Seq<char>)>,
    key: Seq<char>,
) -> Seq<(Seq<char>, Seq<char>)> {
    text.filter(|e: (Seq<char>, Seq<char>)| e.0 != key)
}

/// `text` with `entry` put before the entries at its end that have a
/// greater key.
pub open spec fn placed(
    text: Seq<(Seq<char>, Seq<char>)>,
    entry: (Seq<char>, Seq<char>),
) -> Seq<(Seq<char>, Seq<char>)>
    decreases text.len(),
{
    if text.len() > 0 && text_before(entry.0, text.last().0) {
        placed(text.drop_last(), entry).push(text.last())
    } else {
        text.push(entry)
    }
}

/// Text records in the order of their keys, entries with the same key in
/// the order in which they stood.
pub open spec fn by_key(text: Seq<(Seq<char>, Seq<char>)>) -> Seq<(Seq<char>, Seq<char>)>
    decreases text.len(),
{
    if text.len() == 0 {
        text
    } else {
        placed(by_key(text.drop_last()), text.last())
    }
}

/// Text records with strictly ascending keys.
pub open spec fn keys_ascend(text: Seq<(Seq<char>, Seq<char>)>) -> bool {
    forall|i: int, j: int|
        0 <= i < j < text.len() ==> text_before((#[trigger] text[i]).0, (#[trigger] text[j]).0)
}

/// Remove the text records with this key.
pub fn remove_key(text: &Vec<(String, String)>, key: &str) -> (r: Vec<(String, String)>)
    ensures
        pairs(r@) == without_key(pairs(text@), key@),
{
    let mut r: Vec<(String, String)> = Vec::new();
    let mut i: usize = 0;
    let ghost keep = |e: (Seq<char>, Seq<char>)| e.0 != key@;
    let ghost all = pairs(text@);
    proof {
        assert(pairs(r@) =~= Seq::<(Seq<char>, Seq<char>)>::empty());
        assert(all.take(0) =~= Seq::<(Seq<char>, Seq<char>)>::empty());
        reveal(Seq::filter);
    }
    while i < text.len()
        invariant
            i <= text@.len(),
            all == pairs(text@),
            keep == (|e: (Seq<char>, Seq<char>)| e.0 != key@),
            pairs(r@) == all.take(i as int).filter(keep),
        decreases text.len() - i,
    {
        let ghost before = r@;
        let ghost next = all.take(i + 1);
        proof {
            assert(next.drop_last() =~= all.take(i as int));
            assert(next.last() == all[i as int]);
            assert(all[i as int] == (text@[i as int].0@, text@[i as int].1@));
            reveal(Seq::filter);
        }
        if !same_text(text[i].0.as_str(), key) {
            r.push((text[i].0.clone(), text[i].1.clone()));
            assert(pairs(r@) =~= pairs(before).push(all[i as int]));
        }
        i += 1;
    }
    assert(all.take(i as int) =~= all);
    r
}

/// Put one text record in its place among sorted ones.
fn place(text: Vec<(String, String)>, entry: (String, String)) -> (r: Vec<(String, String)>)
    ensures
        pairs(r@) == placed(pairs(text@), (entry.0@, entry.1@)),
    decreases text@.len(),
{
    let mut text = text;
    let ghost all = pairs(text@);
    let n: usize = text.len();
    if n > 0 {
        let ghost last = text@[n - 1];
        assert(all.last() == (last.0@, last.1@));
        if text_comes_before(entry.0.as_str(), text[n - 1].0.as_str()) {
            let end = text.pop().unwrap();
            assert(pairs(text@) =~= all.drop_last());
            let mut r = place(text, entry);
            let ghost before = r@;
            r.push(end);
            assert(pairs(r@) =~= pairs(before).push(all.last()));
            return r;
        }
    }
    let ghost before = text@;
    text.push(entry);
    assert(pairs(text@) =~= pairs(before).push((entry.0@, entry.1@)));
    text
}

/// Sort text records by key.
pub fn sort_text(text: &Vec<(String, String)>) -> (r: Vec<(String, String)>)
    ensures
        pairs(r@) == by_key(pairs(text@)),
{
    let mut r: Vec<(String, String)> = Vec::new();
    let mut i: usize = 0;
    let ghost all = pairs(text@);
    assert(pairs(r@) =~= by_key(all.take(0)));
    while i < text.len()
        invariant
            i <= text@.len(),
            all == pairs(text@),
            pairs(r@) == by_key(all.take(i as int)),
        decreases text.len() - i,
    {
        let ghost next = all.take(i + 1);
        assert(next.drop_last() =~= all.take(i as int));
        assert(next.last() == (text@[i as int].0@, text@[i as int].1@));
        r = place(r, (text[i].0.clone(), text[i].1.clone()));
        i += 1;
    }
    assert(all.take(i as int) =~= all);
    r
}

// --- the certified form -------------------------------------------------------------

/// Lines as one text, each ended by a newline.
pub open spec fn unlines(lines: Seq<Seq<char>>) -> Seq<char>
    decreases lines.len(),
{
    if lines.len() == 0 {
        Seq::empty()
    } else {
        unlines(lines.drop_last()) + lines.last() + "\n"@
    }
}

/// A target in the certified form.
pub open spec fn target_text(t: TargetState) -> Seq<char> {
    match t {
        TargetState::Address(p) => "address:"@ + principal_text(p),
        TargetState::Alias(n) => "alias:"@ + n,
    }
}

/// The line of one text record.
pub open spec fn text_line(e: (Seq<char>, Seq<char>)) -> Seq<char> {
    "text."@ + e.0 + "="@ + e.1
}

/// When a holding lapsed, in the certified form.
pub open spec fn lapse_text(t: Option<u64>) -> Seq<char> {
    match t {
        Some(ns) => decimal(ns as nat),
        None => "none"@,
    }
}

/// The lines before the text records.
pub open spec fn head_lines(r: RecordState) -> Seq<Seq<char>> {
    seq!["name="@ + r.name, "owner="@ + principal_text(r.owner), "target="@ + target_text(r.target)]
}

/// The lines with the times of a record.
pub open spec fn time_lines(r: RecordState) -> Seq<Seq<char>> {
    seq![
        "created_ns="@ + decimal(r.created_ns as nat),
        "updated_ns="@ + decimal(r.updated_ns as nat),
        "changed_hands_ns="@ + decimal(r.changed_hands_ns as nat),
    ]
}

/// The line with the target before the last sale, if there is one.
pub open spec fn previous_lines(r: RecordState) -> Seq<Seq<char>> {
    match r.previous_target {
        Some(t) => seq!["previous_target="@ + target_text(t)],
        None => Seq::empty(),
    }
}

/// The lines of a holding, if there is one.
pub open spec fn flat_lines(r: RecordState) -> Seq<Seq<char>> {
    match r.flat {
        Some(h) => seq![
            "price="@ + decimal(h.price as nat),
            "balance="@ + decimal(h.balance as nat),
            "settled_ns="@ + decimal(h.settled_ns as nat),
            "lapsed_ns="@ + lapse_text(h.lapsed_ns),
        ],
        None => Seq::empty(),
    }
}

/// The lines of the certified form, in order.
pub open spec fn record_lines(r: RecordState) -> Seq<Seq<char>> {
    head_lines(r) + r.text.map_values(|e: (Seq<char>, Seq<char>)| text_line(e)) + time_lines(r)
        + previous_lines(r) + flat_lines(r)
}

/// The certified form of a record, as text.
pub open spec fn canonical_text(r: RecordState) -> Seq<char> {
    unlines(record_lines(r))
}

/// The bytes that are certified for a record.
pub open spec fn canonical_bytes(r: RecordState) -> Seq<u8> {
    encode_utf8(canonical_text(r))
}

/// Add a line to lines that stand in `out`.
fn push_line(out: &mut String, key: &str, value: &str, lines: Ghost<Seq<Seq<char>>>)
    requires
        old(out)@ == unlines(lines@),
    ensures
        final(out)@ == unlines(lines@.push(key@ + value@)),
{
    let line = join2(key, value);
    out.append(line.as_str());
    out.append("\n");
    assert(lines@.push(line@).drop_last() =~= lines@);
}

/// A target in the certified form.
fn target_as_text(t: &Target) -> (r: String)
    ensures
        r@ == target_text(t@),
        t@ matches TargetState::Address(p) ==> spelled(p),
{
    match t {
        Target::Address(p) => {
            let text = p.to_text();
            proof {
                lemma_principal_one_line(text@);
            }
            join2("address:", text.as_str())
        },
        Target::Alias(n) => join2("alias:", n.as_str()),
    }
}

impl Record {
    /// A fresh record with no text records; every timestamp is `now`.
    pub fn new(name: String, owner: Principal, target: Target, now: u64) -> (r: Record)
        ensures
            r@ == fresh_record(name@, owner@, target@, now),
    {
        let r = Record {
            name,
            owner,
            target,
            previous_target: None,
            text: Vec::new(),
            created_ns: now,
            updated_ns: now,
            changed_hands_ns: now,
            flat: None,
        };
        assert(r@.text =~= Seq::<(Seq<char>, Seq<char>)>::empty());
        r
    }

    /// The bytes that get certified. Line oriented, pure ASCII apart from
    /// text values, one field per line, text records in their order. A
    /// verifier rebuilds this from the record it received and checks that
    /// the witness leaf equals it.
    pub fn canonical(&self) -> (r: Vec<u8>)
        ensures
            r@ == canonical_bytes(self@),
            principals_spelled(self@),
    {
        let mut out = String::new();
        let ghost none = Seq::<Seq<char>>::empty();
        assert(out@ =~= unlines(none));
        push_line(&mut out, "name=", self.name.as_str(), Ghost(none));
        let ghost one = none.push("name="@ + self@.name);
        let owner = self.owner.to_text();
        proof {
            lemma_principal_one_line(owner@);
        }
        push_line(&mut out, "owner=", owner.as_str(), Ghost(one));
        let ghost two = one.push("owner="@ + principal_text(self@.owner));
        let target = target_as_text(&self.target);
        push_line(&mut out, "target=", target.as_str(), Ghost(two));
        let ghost head = head_lines(self@);
        assert(two.push("target="@ + target_text(self@.target)) =~= head);
        let ghost entries = self@.text.map_values(|e: (Seq<char>, Seq<char>)| text_line(e));
        let mut i: usize = 0;
        assert(head + entries.take(0) =~= head);
        while i < self.text.len()
            invariant
                i <= self.text@.len(),
                self@.text == pairs(self.text@),
                entries == self@.text.map_values(|e: (Seq<char>, Seq<char>)| text_line(e)),
                out@ == unlines(head + entries.take(i as int)),
            decreases self.text.len() - i,
        {
            let key = join3("text.", self.text[i].0.as_str(), "=");
            push_line(
                &mut out,
                key.as_str(),
                self.text[i].1.as_str(),
                Ghost(head + entries.take(i as int)),
            );
            assert(entries[i as int] == text_line((self.text@[i as int].0@, self.text@[i as int].1@)));
            assert((head + entries.take(i as int)).push(entries[i as int]) =~= head + entries.take(
                i + 1,
            ));
            i += 1;
        }
        assert(entries.take(i as int) =~= entries);
        let ghost told = head + entries;
        push_line(&mut out, "created_ns=", decimal_text(self.created_ns as u128).as_str(), Ghost(told));
        let ghost t1 = told.push("created_ns="@ + decimal(self.created_ns as nat));
        push_line(&mut out, "updated_ns=", decimal_text(self.updated_ns as u128).as_str(), Ghost(t1));
        let ghost t2 = t1.push("updated_ns="@ + decimal(self.updated_ns as nat));
        push_line(
            &mut out,
            "changed_hands_ns=",
            decimal_text(self.changed_hands_ns as u128).as_str(),
            Ghost(t2),
        );
        let ghost times = told + time_lines(self@);
        assert(t2.push("changed_hands_ns="@ + decimal(self.changed_hands_ns as nat)) =~= times);
        match &self.previous_target {
            Some(t) => {
                let previous = target_as_text(t);
                push_line(&mut out, "previous_target=", previous.as_str(), Ghost(times));
            },
            None => {},
        }
        let ghost past = times + previous_lines(self@);
        assert(out@ == unlines(past)) by {
            if self@.previous_target is Some {
                assert(times.push("previous_target="@ + target_text(self@.previous_target->0))
                    =~= past);
            } else {
                assert(times =~= past);
            }
        }
        match &self.flat {
            Some(h) => {
                push_line(&mut out, "price=", decimal_text(h.price).as_str(), Ghost(past));
                let ghost f1 = past.push("price="@ + decimal(h.price as nat));
                push_line(&mut out, "balance=", decimal_text(h.balance).as_str(), Ghost(f1));
                let ghost f2 = f1.push("balance="@ + decimal(h.balance as nat));
                push_line(
                    &mut out,
                    "settled_ns=",
                    decimal_text(h.settled_ns as u128).as_str(),
                    Ghost(f2),
                );
                let ghost f3 = f2.push("settled_ns="@ + decimal(h.settled_ns as nat));
                let lapsed = match h.lapsed_ns {
                    Some(ns) => decimal_text(ns as u128),
                    None => "none".to_string(),
                };
                push_line(&mut out, "lapsed_ns=", lapsed.as_str(), Ghost(f3));
                assert(f3.push("lapsed_ns="@ + lapse_text(h.lapsed_ns)) =~= record_lines(self@));
            },
            None => {
                assert(past =~= record_lines(self@));
            },
        }
        out.as_str().as_bytes_vec()
    }

    /// One text record's value.
    pub fn text(&self, key: &str) -> (r: Option<String>)
        ensures
            seen(r) == text_value(self@.text, key@),
    {
        let mut i: usize = 0;
        assert(self@.text.skip(0) =~= self@.text);
        while i < self.text.len()
            invariant
                i <= self.text@.len(),
                self@.text == pairs(self.text@),
                text_value(self@.text, key@) == text_value(self@.text.skip(i as int), key@),
            decreases self.text.len() - i,
        {
            let ghost rest = self@.text.skip(i as int);
            assert(rest[0] == (self.text@[i as int].0@, self.text@[i as int].1@));
            if same_text(self.text[i].0.as_str(), key) {
                return Some(self.text[i].1.clone());
            }
            assert(rest.drop_first() =~= self@.text.skip(i + 1));
            i += 1;
        }
        None
    }
}

// --- what holds of text records -----------------------------------------------------

/// No two text records share a key.
pub open spec fn distinct_keys(text: Seq<(Seq<char>, Seq<char>)>) -> bool {
    forall|i: int, j: int|
        0 <= i < text.len() && 0 <= j < text.len() && i != j ==> (#[trigger] text[i]).0 != (
        #[trigger] text[j]).0
}

/// Text records with a key set to a value.
pub open spec fn with_text(
    text: Seq<(Seq<char>, Seq<char>)>,
    key: Seq<char>,
    value: Seq<char>,
) -> Seq<(Seq<char>, Seq<char>)> {
    without_key(text, key).push((key, value))
}

/// Ascending keys are distinct.
pub proof fn lemma_ascend_distinct(text: Seq<(Seq<char>, Seq<char>)>)
    requires
        keys_ascend(text),
    ensures
        distinct_keys(text),
{
    assert forall|i: int, j: int|
        0 <= i < text.len() && 0 <= j < text.len() && i != j implies (#[trigger] text[i]).0 != (
    #[trigger] text[j]).0 by {
        lemma_before_irreflexive(encode_utf8(text[i].0));
        if i < j {
            assert(text_before(text[i].0, text[j].0));
        } else {
            assert(text_before(text[j].0, text[i].0));
        }
    }
}

/// Placing an entry keeps the others and adds it.
proof fn lemma_placed(text: Seq<(Seq<char>, Seq<char>)>, entry: (Seq<char>, Seq<char>))
    ensures
        placed(text, entry).len() == text.len() + 1,
        forall|e: (Seq<char>, Seq<char>)| #[trigger]
            placed(text, entry).contains(e) <==> e == entry || text.contains(e),
    decreases text.len(),
{
    let out = placed(text, entry);
    if text.len() > 0 && text_before(entry.0, text.last().0) {
        let rest = text.drop_last();
        lemma_placed(rest, entry);
        let inner = placed(rest, entry);
        assert(text =~= rest.push(text.last()));
        assert forall|e: (Seq<char>, Seq<char>)| #[trigger] out.contains(e) <==> e == entry
            || text.contains(e) by {
            lemma_push_contains(inner, text.last(), e);
            lemma_push_contains(rest, text.last(), e);
        }
    } else {
        assert forall|e: (Seq<char>, Seq<char>)| #[trigger] out.contains(e) <==> e == entry
            || text.contains(e) by {
            lemma_push_contains(text, entry, e);
        }
    }
}

/// What a list with one more element contains.
proof fn lemma_push_contains<A>(s: Seq<A>, x: A, e: A)
    ensures
        s.push(x).contains(e) <==> e == x || s.contains(e),
{
    if s.contains(e) {
        let i = choose|i: int| 0 <= i < s.len() && s[i] == e;
        assert(s.push(x)[i] == e);
    }
    if e == x {
        assert(s.push(x)[s.len() as int] == e);
    }
    if s.push(x).contains(e) && e != x {
        let i = choose|i: int| 0 <= i < s.push(x).len() && s.push(x)[i] == e;
        assert(s[i] == e);
    }
}

/// Placing an entry with a new key among ascending ones keeps them
/// ascending.
proof fn lemma_placed_ascends(text: Seq<(Seq<char>, Seq<char>)>, entry: (Seq<char>, Seq<char>))
    requires
        keys_ascend(text),
        forall|i: int| 0 <= i < text.len() ==> (#[trigger] text[i]).0 != entry.0,
    ensures
        keys_ascend(placed(text, entry)),
    decreases text.len(),
{
    let out = placed(text, entry);
    if text.len() > 0 && text_before(entry.0, text.last().0) {
        let rest = text.drop_last();
        let last = text.last();
        assert forall|i: int| 0 <= i < rest.len() implies (#[trigger] rest[i]).0 != entry.0 by {
            assert(rest[i] == text[i]);
        }
        assert(keys_ascend(rest)) by {
            assert forall|i: int, j: int| 0 <= i < j < rest.len() implies text_before(
                (#[trigger] rest[i]).0,
                (#[trigger] rest[j]).0,
            ) by {
                assert(rest[i] == text[i] && rest[j] == text[j]);
            }
        }
        lemma_placed_ascends(rest, entry);
        lemma_placed(rest, entry);
        let inner = placed(rest, entry);
        assert forall|i: int, j: int| 0 <= i < j < out.len() implies text_before(
            (#[trigger] out[i]).0,
            (#[trigger] out[j]).0,
        ) by {
            if j == out.len() - 1 {
                assert(out[i] == inner[i]);
                assert(inner.contains(inner[i]));
                if inner[i] != entry {
                    assert(rest.contains(inner[i]));
                    let k = choose|k: int| 0 <= k < rest.len() && rest[k] == inner[i];
                    assert(text[k] == rest[k]);
                    assert(text_before(text[k].0, text[text.len() - 1].0));
                }
            } else {
                assert(out[i] == inner[i] && out[j] == inner[j]);
            }
        }
    } else {
        assert forall|i: int, j: int| 0 <= i < j < out.len() implies text_before(
            (#[trigger] out[i]).0,
            (#[trigger] out[j]).0,
        ) by {
            if j == text.len() {
                assert(out[i] == text[i]);
                assert(text[i].0 != entry.0);
                lemma_before_total(encode_utf8(text[text.len() - 1].0), encode_utf8(entry.0));
                if encode_utf8(text[text.len() - 1].0) == encode_utf8(entry.0) {
                    lemma_utf8_injective(text[text.len() - 1].0, entry.0);
                    assert(text[text.len() - 1].0 != entry.0);
                }
                if i < text.len() - 1 {
                    assert(text_before(text[i].0, text[text.len() - 1].0));
                    lemma_before_transitive(
                        encode_utf8(text[i].0),
                        encode_utf8(text[text.len() - 1].0),
                        encode_utf8(entry.0),
                    );
                }
            } else {
                assert(out[i] == text[i] && out[j] == text[j]);
            }
        }
    }
}

/// Sorting keeps the entries, and orders those with distinct keys.
pub proof fn lemma_by_key(text: Seq<(Seq<char>, Seq<char>)>)
    ensures
        by_key(text).len() == text.len(),
        forall|e: (Seq<char>, Seq<char>)| #[trigger]
            by_key(text).contains(e) <==> text.contains(e),
        distinct_keys(text) ==> keys_ascend(by_key(text)),
    decreases text.len(),
{
    if text.len() > 0 {
        let rest = text.drop_last();
        let last = text.last();
        lemma_by_key(rest);
        lemma_placed(by_key(rest), last);
        assert(text =~= rest.push(last));
        assert forall|e: (Seq<char>, Seq<char>)| #[trigger] by_key(text).contains(e)
            <==> text.contains(e) by {
            lemma_push_contains(rest, last, e);
        }
        if distinct_keys(text) {
            assert(distinct_keys(rest)) by {
                assert forall|i: int, j: int|
                    0 <= i < rest.len() && 0 <= j < rest.len() && i != j implies (
                #[trigger] rest[i]).0 != (#[trigger] rest[j]).0 by {
                    assert(rest[i] == text[i] && rest[j] == text[j]);
                }
            }
            let sorted = by_key(rest);
            assert forall|i: int| 0 <= i < sorted.len() implies (#[trigger] sorted[i]).0
                != last.0 by {
                assert(sorted.contains(sorted[i]));
                assert(rest.contains(sorted[i]));
                let k = choose|k: int| 0 <= k < rest.len() && rest[k] == sorted[i];
                assert(text[k] == rest[k]);
                assert(text[k].0 != text[text.len() - 1].0);
            }
            lemma_placed_ascends(sorted, last);
        }
    }
}

/// Which entries stay when a key is removed.
pub proof fn lemma_without_key(text: Seq<(Seq<char>, Seq<char>)>, key: Seq<char>)
    ensures
        without_key(text, key).len() <= text.len(),
        forall|e: (Seq<char>, Seq<char>)| #[trigger]
            without_key(text, key).contains(e) <==> text.contains(e) && e.0 != key,
        keys_ascend(text) ==> keys_ascend(without_key(text, key)),
        distinct_keys(text) ==> distinct_keys(without_key(text, key)),
    decreases text.len(),
{
    reveal(Seq::filter);
    let out = without_key(text, key);
    if text.len() == 0 {
        assert(out =~= text);
    } else {
        let rest = text.drop_last();
        let last = text.last();
        let inner = without_key(rest, key);
        lemma_without_key(rest, key);
        assert(text =~= rest.push(last));
        assert forall|i: int| 0 <= i < rest.len() implies rest[i] == text[i] by {}
        assert forall|e: (Seq<char>, Seq<char>)| #[trigger] out.contains(e) <==> text.contains(e)
            && e.0 != key by {
            lemma_push_contains(rest, last, e);
            lemma_push_contains(inner, last, e);
        }
        if last.0 != key {
            assert(out == inner.push(last));
            if keys_ascend(text) {
                assert(keys_ascend(rest)) by {
                    assert forall|i: int, j: int| 0 <= i < j < rest.len() implies text_before(
                        (#[trigger] rest[i]).0,
                        (#[trigger] rest[j]).0,
                    ) by {
                        assert(text_before(text[i].0, text[j].0));
                    }
                }
                assert forall|i: int, j: int| 0 <= i < j < out.len() implies text_before(
                    (#[trigger] out[i]).0,
                    (#[trigger] out[j]).0,
                ) by {
                    assert(out[i] == inner[i]);
                    if j == out.len() - 1 {
                        assert(inner.contains(inner[i]));
                        assert(rest.contains(inner[i]));
                        let k = choose|k: int| 0 <= k < rest.len() && rest[k] == inner[i];
                        assert(text_before(text[k].0, text[text.len() - 1].0));
                    } else {
                        assert(out[j] == inner[j]);
                    }
                }
            }
            if distinct_keys(text) {
                assert(distinct_keys(rest)) by {
                    assert forall|i: int, j: int|
                        0 <= i < rest.len() && 0 <= j < rest.len() && i != j implies (
                    #[trigger] rest[i]).0 != (#[trigger] rest[j]).0 by {
                        assert(text[i].0 != text[j].0);
                    }
                }
                assert forall|i: int, j: int|
                    0 <= i < out.len() && 0 <= j < out.len() && i != j implies (
                #[trigger] out[i]).0 != (#[trigger] out[j]).0 by {
                    let m = out.len() - 1;
                    if i == m {
                        assert(inner.contains(inner[j]));
                        assert(rest.contains(inner[j]));
                        let k = choose|k: int| 0 <= k < rest.len() && rest[k] == inner[j];
                        assert(text[k].0 != text[text.len() - 1].0);
                    } else if j == m {
                        assert(inner.contains(inner[i]));
                        assert(rest.contains(inner[i]));
                        let k = choose|k: int| 0 <= k < rest.len() && rest[k] == inner[i];
                        assert(text[k].0 != text[text.len() - 1].0);
                    } else {
                        assert(out[i] == inner[i] && out[j] == inner[j]);
                    }
                }
            }
        } else {
            assert(out == inner);
            if keys_ascend(text) {
                assert(keys_ascend(rest)) by {
                    assert forall|i: int, j: int| 0 <= i < j < rest.len() implies text_before(
                        (#[trigger] rest[i]).0,
                        (#[trigger] rest[j]).0,
                    ) by {
                        assert(text_before(text[i].0, text[j].0));
                    }
                }
            }
            if distinct_keys(text) {
                assert(distinct_keys(rest)) by {
                    assert forall|i: int, j: int|
                        0 <= i < rest.len() && 0 <= j < rest.len() && i != j implies (
                    #[trigger] rest[i]).0 != (#[trigger] rest[j]).0 by {
                        assert(text[i].0 != text[j].0);
                    }
                }
            }
        }
    }
}

/// Setting a key keeps keys distinct, the other entries and adds the new
/// one.
pub proof fn lemma_with_text(text: Seq<(Seq<char>, Seq<char>)>, key: Seq<char>, value: Seq<char>)
    ensures
        with_text(text, key, value).len() <= text.len() + 1,
        forall|e: (Seq<char>, Seq<char>)| #[trigger]
            with_text(text, key, value).contains(e) <==> e == (key, value) || (text.contains(e)
                && e.0 != key),
        distinct_keys(text) ==> distinct_keys(with_text(text, key, value)),
{
    lemma_without_key(text, key);
    let kept = without_key(text, key);
    let out = with_text(text, key, value);
    assert forall|e: (Seq<char>, Seq<char>)| #[trigger] out.contains(e) <==> e == (key, value) || (
    text.contains(e) && e.0 != key) by {
        lemma_push_contains(kept, (key, value), e);
    }
    if distinct_keys(text) {
        assert forall|i: int, j: int| 0 <= i < out.len() && 0 <= j < out.len() && i != j implies (
        #[trigger] out[i]).0 != (#[trigger] out[j]).0 by {
            let m = out.len() - 1;
            if i == m {
                assert(kept.contains(out[j]));
            } else if j == m {
                assert(kept.contains(out[i]));
            } else {
                assert(out[i] == kept[i] && out[j] == kept[j]);
            }
        }
    }
}

/// With distinct keys, the value of a key is that of its entry.
pub proof fn lemma_text_value(text: Seq<(Seq<char>, Seq<char>)>, key: Seq<char>, value: Seq<char>)
    requires
        distinct_keys(text),
        text.contains((key, value)),
    ensures
        text_value(text, key) == Some(value),
    decreases text.len(),
{
    let i = choose|i: int| 0 <= i < text.len() && text[i] == (key, value);
    if i > 0 {
        assert(text[0].0 != text[i].0);
        let rest = text.drop_first();
        assert(rest[i - 1] == text[i]);
        assert forall|a: int, b: int| 0 <= a < rest.len() && 0 <= b < rest.len() && a
            != b implies (#[trigger] rest[a]).0 != (#[trigger] rest[b]).0 by {
            assert(rest[a] == text[a + 1] && rest[b] == text[b + 1]);
        }
        lemma_text_value(rest, key, value);
    }
}

/// A value that is found stands in the list.
pub proof fn lemma_text_value_found(text: Seq<(Seq<char>, Seq<char>)>, key: Seq<char>)
    ensures
        text_value(text, key) matches Some(v) ==> text.contains((key, v)),
    decreases text.len(),
{
    if text.len() > 0 {
        if text[0].0 == key {
            assert(text[0] == (key, text[0].1));
        } else {
            lemma_text_value_found(text.drop_first(), key);
            if text_value(text, key) is Some {
                let v = text_value(text, key)->0;
                let rest = text.drop_first();
                let i = choose|i: int| 0 <= i < rest.len() && rest[i] == (key, v);
                assert(text[i + 1] == rest[i]);
            }
        }
    }
}

/// Whether text records have one with this key.
pub open spec fn has_key(text: Seq<(Seq<char>, Seq<char>)>, key: Seq<char>) -> bool {
    exists|i: int| 0 <= i < text.len() && (#[trigger] text[i]).0 == key
}

/// A value is found exactly where a text record has the key.
pub proof fn law_keys_have_values(text: Seq<(Seq<char>, Seq<char>)>, key: Seq<char>)
    ensures
        text_value(text, key) is Some <==> has_key(text, key),
    decreases text.len(),
{
    if text.len() > 0 && text[0].0 != key {
        let rest = text.drop_first();
        law_keys_have_values(rest, key);
        if has_key(text, key) {
            let i = choose|i: int| 0 <= i < text.len() && (#[trigger] text[i]).0 == key;
            assert(rest[i - 1] == text[i]);
        }
        if has_key(rest, key) {
            let i = choose|i: int| 0 <= i < rest.len() && (#[trigger] rest[i]).0 == key;
            assert(text[i + 1] == rest[i]);
        }
    }
}

/// With distinct keys, removing a key takes its one entry away.
pub proof fn lemma_without_key_len(text: Seq<(Seq<char>, Seq<char>)>, key: Seq<char>)
    requires
        distinct_keys(text),
    ensures
        without_key(text, key).len() == text.len() - if has_key(text, key) {
            1int
        } else {
            0int
        },
    decreases text.len(),
{
    reveal(Seq::filter);
    if text.len() > 0 {
        let rest = text.drop_last();
        assert forall|i: int, j: int| 0 <= i < rest.len() && 0 <= j < rest.len() && i
            != j implies (#[trigger] rest[i]).0 != (#[trigger] rest[j]).0 by {
            assert(rest[i] == text[i] && rest[j] == text[j]);
        }
        lemma_without_key_len(rest, key);
        if has_key(rest, key) {
            let i = choose|i: int| 0 <= i < rest.len() && (#[trigger] rest[i]).0 == key;
            assert(text[i] == rest[i]);
            assert(text[text.len() - 1].0 != text[i].0);
        } else if has_key(text, key) {
            let i = choose|i: int| 0 <= i < text.len() && (#[trigger] text[i]).0 == key;
            if i < rest.len() {
                assert(rest[i] == text[i]);
            }
        }
        if text.last().0 == key {
            assert(text[text.len() - 1].0 == key);
        }
    }
}

/// A text record that was set reads back, and no other one changes.
pub proof fn law_text_reads_back(
    text: Seq<(Seq<char>, Seq<char>)>,
    key: Seq<char>,
    value: Seq<char>,
    other: Seq<char>,
)
    requires
        keys_ascend(text),
    ensures
        text_value(by_key(with_text(text, key, value)), key) == Some(value),
        other != key ==> text_value(by_key(with_text(text, key, value)), other) == text_value(
            text,
            other,
        ),
        keys_ascend(by_key(with_text(text, key, value))),
{
    lemma_ascend_distinct(text);
    let set = with_text(text, key, value);
    let out = by_key(set);
    lemma_with_text(text, key, value);
    lemma_by_key(set);
    lemma_ascend_distinct(out);
    assert(set.contains((key, value)));
    assert(out.contains((key, value)));
    lemma_text_value(out, key, value);
    if other != key {
        lemma_text_value_found(text, other);
        lemma_text_value_found(out, other);
        if text_value(text, other) is Some {
            let v = text_value(text, other)->0;
            assert(set.contains((other, v)));
            assert(out.contains((other, v)));
            lemma_text_value(out, other, v);
        } else if text_value(out, other) is Some {
            let v = text_value(out, other)->0;
            assert(out.contains((other, v)));
            assert(set.contains((other, v)));
            assert(text.contains((other, v)));
            lemma_text_value(text, other, v);
        }
    }
}

/// A text record that was cleared is gone, and no other one changes.
pub proof fn law_text_cleared(text: Seq<(Seq<char>, Seq<char>)>, key: Seq<char>, other: Seq<char>)
    requires
        keys_ascend(text),
    ensures
        text_value(without_key(text, key), key) is None,
        other != key ==> text_value(without_key(text, key), other) == text_value(text, other),
        keys_ascend(without_key(text, key)),
{
    lemma_ascend_distinct(text);
    let out = without_key(text, key);
    lemma_without_key(text, key);
    lemma_text_value_found(out, key);
    lemma_text_value_found(text, other);
    lemma_text_value_found(out, other);
    if text_value(out, key) is Some {
        assert(out.contains((key, text_value(out, key)->0)));
    }
    if other != key {
        if text_value(text, other) is Some {
            let v = text_value(text, other)->0;
            assert(out.contains((other, v)));
            lemma_text_value(out, other, v);
        } else if text_value(out, other) is Some {
            let v = text_value(out, other)->0;
            assert(text.contains((other, v)));
            lemma_text_value(text, other, v);
        }
    }
}

/// How a target is certified: its kind, a colon, and the principal or the
/// name.
pub open spec fn spelled_target(t: TargetState) -> Seq<char> {
    match t {
        TargetState::Address(p) => "address:"@ + principal_text(p),
        TargetState::Alias(n) => "alias:"@ + n,
    }
}

/// A record line by line: name, owner and target; the texts in order; the
/// three times; the previous target, where there is one; and the holding,
/// where there is one.
pub open spec fn all_lines(r: RecordState) -> Seq<Seq<char>> {
    let head = seq![
        "name="@ + r.name,
        "owner="@ + principal_text(r.owner),
        "target="@ + spelled_target(r.target),
    ];
    let texts = Seq::new(r.text.len(), |i: int| "text."@ + r.text[i].0 + "="@ + r.text[i].1);
    let times = seq![
        "created_ns="@ + decimal(r.created_ns as nat),
        "updated_ns="@ + decimal(r.updated_ns as nat),
        "changed_hands_ns="@ + decimal(r.changed_hands_ns as nat),
    ];
    let previous = if r.previous_target is Some {
        seq!["previous_target="@ + spelled_target(r.previous_target->0)]
    } else {
        Seq::empty()
    };
    let h = r.flat->0;
    let lapse = if h.lapsed_ns is Some {
        decimal(h.lapsed_ns->0 as nat)
    } else {
        "none"@
    };
    let holding = if r.flat is Some {
        seq![
            "price="@ + decimal(h.price as nat),
            "balance="@ + decimal(h.balance as nat),
            "settled_ns="@ + decimal(h.settled_ns as nat),
            "lapsed_ns="@ + lapse,
        ]
    } else {
        Seq::empty()
    };
    head + texts + times + previous + holding
}

/// The certified form is a record line by line, each line ended by a
/// newline. Nothing of a record is left out.
pub proof fn law_certified_form(r: RecordState)
    ensures
        canonical_bytes(r) == encode_utf8(unlines(all_lines(r))),
{
    assert(target_text(r.target) == spelled_target(r.target));
    assert(record_lines(r) =~= all_lines(r));
}

/// A fresh record has what it is made of and nothing else: no texts, no
/// earlier target, no holding, and the same moment for all its times.
pub proof fn law_fresh_records_start_empty(
    name: Seq<char>,
    owner: Seq<u8>,
    target: TargetState,
    now: u64,
)
    ensures
        ({
            let r = fresh_record(name, owner, target, now);
            &&& r.name == name && r.owner == owner && r.target == target
            &&& r.text.len() == 0 && r.previous_target is None && r.flat is None
            &&& r.created_ns == now && r.updated_ns == now && r.changed_hands_ns == now
        }),
{
}

/// Of text records with the same key the first one counts, and a key that
/// stands nowhere has no value.
pub proof fn law_first_text_counts(
    text: Seq<(Seq<char>, Seq<char>)>,
    key: Seq<char>,
    value: Seq<char>,
    other: Seq<char>,
)
    ensures
        text_value(seq![(key, value)] + text, key) == Some(value),
        other != key ==> text_value(seq![(key, value)] + text, other) == text_value(text, other),
        text_value(Seq::empty(), key) is None,
{
    assert((seq![(key, value)] + text).drop_first() =~= text);
}

} // verus!
