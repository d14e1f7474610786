//! Directory and search: what exists.
//!
//! Same records. A tag index keyed "<tag>\0<name>" answers tag lookups by
//! range scan; substring search over names and descriptions is a linear
//! pass over all records. Tags come from the "tags" text record.

use vstd::prelude::*;
use vstd::utf8::*;

use crate::maps::{values_in_order, views, with_prefix, Mark, TextMap};
use crate::order::{
    before, lemma_before_irreflexive, lemma_before_prefix, lemma_before_transitive,
    lemma_texts_in_order, lemma_texts_listed, lists_texts, text_before, texts_in_order,
};
use crate::record::{text_value, Record, RecordState, Target, TargetState};
use crate::store::{for_each_record, get_record, Store, StoreState};
use crate::text::{
    after_prefix, chars_of, find, find_from, has_text, join2, join3, lemma_find, lemma_find_is,
    lemma_utf8_concat, lemma_utf8_injective, lower_text, lowered, occurs, pieces, same_text, seen,
    split_text, text_of, texts, trim_text, trimmed,
};

verus! {

pub const MAX_LIMIT: u32 = 100;

pub const DEFAULT_LIMIT: u32 = 20;

// --- the tag index ------------------------------------------------------------------

/// The tags of a record, from its "tags" text record.
pub open spec fn record_tags(r: RecordState) -> Seq<Seq<char>> {
    match text_value(r.text, "tags"@) {
        Some(v) => pieces(v, ','),
        None => Seq::empty(),
    }
}

/// The key of a tag and a name in the index.
pub open spec fn tag_key(tag: Seq<char>, name: Seq<char>) -> Seq<char> {
    tag + "\0"@ + name
}

/// The keys of a record in the index.
pub open spec fn tag_keys(r: RecordState) -> Set<Seq<char>> {
    Set::new(
        |k: Seq<char>|
            exists|i: int|
                0 <= i < record_tags(r).len() && k == tag_key(#[trigger] record_tags(r)[i], r.name),
    )
}

/// The index that records call for.
pub open spec fn index_of(records: Map<Seq<char>, RecordState>) -> Set<Seq<char>> {
    Set::new(
        |k: Seq<char>|
            exists|n: Seq<char>| #[trigger] records.contains_key(n) && tag_keys(records[n]).contains(k),
    )
}

/// The key of a tag and a name in the index.
fn key(tag: &str, name: &str) -> (r: String)
    ensures
        r@ == tag_key(tag@, name@),
{
    join3(tag, "\0", name)
}

/// Tags of a record, from its "tags" text record. Values were validated on
/// the way in, so a plain split is enough.
pub fn tags_of(record: &Record) -> (r: Vec<String>)
    ensures
        texts(r@) == record_tags(record@),
{
    match record.text("tags") {
        Some(v) => split_text(v.as_str(), ','),
        None => {
            let none: Vec<String> = Vec::new();
            assert(texts(none@) =~= Seq::<Seq<char>>::empty());
            none
        },
    }
}

/// The keys of the first `i` tags of a record.
pub open spec fn first_tag_keys(r: RecordState, i: int) -> Set<Seq<char>> {
    Set::new(
        |k: Seq<char>|
            exists|j: int| 0 <= j < i && k == tag_key(#[trigger] record_tags(r)[j], r.name),
    )
}

/// One more tag adds one key.
proof fn lemma_first_tag_keys(r: RecordState, i: int)
    requires
        0 <= i < record_tags(r).len(),
    ensures
        first_tag_keys(r, i + 1) == first_tag_keys(r, i).insert(tag_key(record_tags(r)[i], r.name)),
{
    let left = first_tag_keys(r, i + 1);
    let k = tag_key(record_tags(r)[i], r.name);
    let right = first_tag_keys(r, i).insert(k);
    assert forall|x: Seq<char>| right.contains(x) implies left.contains(x) by {
        if x == k {
            assert(x == tag_key(record_tags(r)[i], r.name));
        }
    }
    assert(left =~= right);
}

/// Enter a record's tags among the keys of an index.
fn enter(tags: &mut TextMap<Mark>, record: &Record)
    ensures
        final(tags)@.dom() == old(tags)@.dom().union(tag_keys(record@)),
{
    let list = tags_of(record);
    let ghost before = tags@.dom();
    let ghost r = record@;
    let mut i: usize = 0;
    proof {
        assert(first_tag_keys(r, 0) =~= Set::<Seq<char>>::empty());
        assert(before.union(first_tag_keys(r, 0)) =~= before);
    }
    while i < list.len()
        invariant
            i <= list@.len(),
            texts(list@) == record_tags(r),
            r == record@,
            tags@.dom() == before.union(first_tag_keys(r, i as int)),
        decreases list.len() - i,
    {
        let k = key(list[i].as_str(), record.name.as_str());
        proof {
            assert(texts(list@)[i as int] == list@[i as int]@);
            lemma_first_tag_keys(r, i as int);
            assert(before.union(first_tag_keys(r, i + 1)) =~= before.union(
                first_tag_keys(r, i as int),
            ).insert(k@));
            assert(tags@.insert(k@, ()).dom() =~= tags@.dom().insert(k@));
        }
        tags.insert(k.as_str(), &Mark);
        i += 1;
    }
    assert(first_tag_keys(r, i as int) =~= tag_keys(r));
}

/// Enter a record's tags into the index.
pub fn index(store: &mut Store, record: &Record)
    ensures
        final(store)@ == (StoreState {
            tags: old(store)@.tags.union(tag_keys(record@)),
            ..old(store)@
        }),
{
    enter(&mut store.tags, record);
}

/// Take a record's tags out of the index.
pub fn unindex(store: &mut Store, record: &Record)
    ensures
        final(store)@ == (StoreState {
            tags: old(store)@.tags.difference(tag_keys(record@)),
            ..old(store)@
        }),
{
    let tags = tags_of(record);
    let ghost before = store@;
    let ghost r = record@;
    let mut i: usize = 0;
    proof {
        assert(first_tag_keys(r, 0) =~= Set::<Seq<char>>::empty());
        assert(before.tags.difference(first_tag_keys(r, 0)) =~= before.tags);
    }
    while i < tags.len()
        invariant
            i <= tags@.len(),
            texts(tags@) == record_tags(r),
            r == record@,
            store@ == (StoreState {
                tags: before.tags.difference(first_tag_keys(r, i as int)),
                ..before
            }),
        decreases tags.len() - i,
    {
        let k = key(tags[i].as_str(), record.name.as_str());
        proof {
            assert(texts(tags@)[i as int] == tags@[i as int]@);
            lemma_first_tag_keys(r, i as int);
            assert(before.tags.difference(first_tag_keys(r, i + 1)) =~= before.tags.difference(
                first_tag_keys(r, i as int),
            ).remove(k@));
            assert(store.tags@.remove(k@).dom() =~= store.tags@.dom().remove(k@));
        }
        store.tags.remove(k.as_str());
        i += 1;
    }
    assert(first_tag_keys(r, i as int) =~= tag_keys(r));
}

/// Remove every key of an index.
fn clear(tags: &mut TextMap<Mark>)
    ensures
        final(tags)@.dom() == Set::<Seq<char>>::empty(),
{
    let keys = tags.keys();
    let ghost before = tags@.dom();
    let ghost all = texts(keys@);
    let mut i: usize = 0;
    while i < keys.len()
        invariant
            i <= keys@.len(),
            all == texts(keys@),
            lists_texts(all, before),
            forall|k: Seq<char>| #[trigger]
                tags@.dom().contains(k) <==> before.contains(k) && !all.take(i as int).contains(k),
        decreases keys.len() - i,
    {
        let ghost was = tags@.dom();
        proof {
            assert(all[i as int] == keys@[i as int]@);
            assert(tags@.remove(keys@[i as int]@).dom() =~= tags@.dom().remove(keys@[i as int]@));
        }
        tags.remove(keys[i].as_str());
        proof {
            let now = all.take(i + 1);
            let past = all.take(i as int);
            assert forall|k: Seq<char>| #[trigger]
                tags@.dom().contains(k) <==> before.contains(k) && !now.contains(k) by {
                assert(now =~= past.push(all[i as int]));
                if past.contains(k) {
                    let j = choose|j: int| 0 <= j < past.len() && past[j] == k;
                    assert(now[j] == k);
                }
                if now.contains(k) && k != all[i as int] {
                    let j = choose|j: int| 0 <= j < now.len() && now[j] == k;
                    assert(past[j] == k);
                }
                if k == all[i as int] {
                    assert(now[i as int] == k);
                }
                assert(was.contains(k) <==> before.contains(k) && !past.contains(k));
            }
        }
        i += 1;
    }
    assert(all.take(i as int) =~= all);
    assert(tags@.dom() =~= Set::<Seq<char>>::empty());
}

/// The keys of the first `i` of some records.
pub open spec fn first_index(records: Seq<RecordState>, i: int) -> Set<Seq<char>> {
    Set::new(
        |k: Seq<char>| exists|j: int| 0 <= j < i && tag_keys(#[trigger] records[j]).contains(k),
    )
}

/// Drop an index and refill it from records in the order of their names.
pub(crate) fn refill(
    tags: &mut TextMap<Mark>,
    records: &Vec<Record>,
    by_name: Ghost<Map<Seq<char>, RecordState>>,
)
    requires
        lists_texts(texts_in_order(by_name@.dom()), by_name@.dom()),
        views(records@) == values_in_order(by_name@),
    ensures
        final(tags)@.dom() == index_of(by_name@),
{
    clear(tags);
    let ghost all = values_in_order(by_name@);
    let ghost names = texts_in_order(by_name@.dom());
    let mut i: usize = 0;
    assert(first_index(all, 0) =~= Set::<Seq<char>>::empty());
    while i < records.len()
        invariant
            i <= records@.len(),
            views(records@) == all,
            tags@.dom() == first_index(all, i as int),
        decreases records.len() - i,
    {
        let r = &records[i];
        assert(r@ == views(records@)[i as int]);
        enter(tags, r);
        proof {
            let left = first_index(all, i + 1);
            let right = first_index(all, i as int).union(tag_keys(all[i as int]));
            assert forall|k: Seq<char>| right.contains(k) implies left.contains(k) by {
                if tag_keys(all[i as int]).contains(k) {
                    assert(tag_keys(all[i as int]).contains(k));
                }
            }
            assert(left =~= right);
        }
        i += 1;
    }
    proof {
        let left = first_index(all, i as int);
        let right = index_of(by_name@);
        assert(views(records@).len() == records@.len());
        assert(i == all.len() && all.len() == names.len());
        assert forall|k: Seq<char>| left.contains(k) implies right.contains(k) by {
            let j = choose|j: int| 0 <= j < all.len() && tag_keys(#[trigger] all[j]).contains(k);
            assert(by_name@.dom().contains(names[j]));
            assert(by_name@.contains_key(names[j]));
        }
        assert forall|k: Seq<char>| right.contains(k) implies left.contains(k) by {
            let n = choose|n: Seq<char>| #[trigger]
                by_name@.contains_key(n) && tag_keys(by_name@[n]).contains(k);
            assert(by_name@.dom().contains(n));
            assert(names.contains(n));
            let j = choose|j: int| 0 <= j < names.len() && names[j] == n;
            assert(all[j] == by_name@[n]);
        }
        assert(left =~= right);
    }
}

/// Drop the index and refill it from the records.
pub fn rebuild(store: &mut Store)
    ensures
        final(store)@ == (StoreState { tags: index_of(old(store)@.records), ..old(store)@ }),
{
    let records = for_each_record(store);
    let names = store.records.keys();
    let ghost by_name = store@.records;
    refill(&mut store.tags, &records, Ghost(by_name));
}

/// The names that carry a tag.
pub open spec fn tagged_names(tags: Set<Seq<char>>, tag: Seq<char>) -> Set<Seq<char>> {
    Set::new(|n: Seq<char>| tags.contains(tag_key(tag, n)))
}

/// Names carrying `tag`, in name order.
pub fn names_with_tag(store: &Store, tag: &str) -> (r: Vec<String>)
    ensures
        texts(r@) == texts_in_order(tagged_names(store@.tags, tag@)),
        lists_texts(texts(r@), tagged_names(store@.tags, tag@)),
{
    let prefix = join2(tag, "\0");
    let keys = store.tags.keys_with(prefix.as_str());
    let ghost p = prefix@;
    let ghost d = with_prefix(store@.tags, p);
    let ghost named = tagged_names(store@.tags, tag@);
    let mut out: Vec<String> = Vec::new();
    let mut i: usize = 0;
    while i < keys.len()
        invariant
            i <= keys@.len(),
            p == tag@ + "\0"@,
            p == prefix@,
            d == with_prefix(store@.tags, p),
            lists_texts(texts(keys@), d),
            out@.len() == i,
            forall|j: int| 0 <= j < i ==> p + (#[trigger] out@[j])@ == keys@[j]@,
        decreases keys.len() - i,
    {
        assert(d.contains(texts(keys@)[i as int]));
        assert(texts(keys@)[i as int] == keys@[i as int]@);
        match after_prefix(keys[i].as_str(), prefix.as_str()) {
            Some(name) => {
                assert(p + name@ =~= keys@[i as int]@);
                out.push(name);
            },
            None => {},
        }
        i += 1;
    }
    proof {
        let s = texts(out@);
        let ks = texts(keys@);
        assert forall|a: int, b: int| 0 <= a < b < s.len() implies text_before(
            #[trigger] s[a],
            #[trigger] s[b],
        ) by {
            assert(text_before(ks[a], ks[b]));
            assert(ks[a] == p + s[a] && ks[b] == p + s[b]);
            lemma_utf8_concat(p, s[a]);
            lemma_utf8_concat(p, s[b]);
            lemma_before_prefix(encode_utf8(p), encode_utf8(s[a]), encode_utf8(s[b]));
        }
        assert forall|a: int| 0 <= a < s.len() implies named.contains(#[trigger] s[a]) by {
            assert(p + s[a] == keys@[a]@);
            assert(ks[a] == keys@[a]@);
            assert(d.contains(ks[a]));
        }
        assert forall|n: Seq<char>| #[trigger] named.contains(n) implies s.contains(n) by {
            let k = p + n;
            assert(k.take(p.len() as int) =~= p);
            assert(d.contains(k));
            assert(ks.contains(k));
            let j = choose|j: int| 0 <= j < ks.len() && ks[j] == k;
            assert(p + out@[j]@ == k);
            assert(out@[j]@ =~= k.skip(p.len() as int));
            assert(n =~= k.skip(p.len() as int));
            assert(s[j] == n);
        }
        lemma_texts_in_order(s, named);
    }
    out
}

// --- tags in use --------------------------------------------------------------------

/// A tag and how many names carry it.
#[derive(Debug, PartialEq, Eq)]
pub struct TagCount {
    pub tag: String,
    pub count: u32,
}

/// The tag of a key in the index: what stands before the first NUL.
pub open spec fn tag_of_key(k: Seq<char>) -> Seq<char> {
    k.take(find(k, '\0'))
}

/// How many of the keys carry a tag.
pub open spec fn count_of(keys: Seq<Seq<char>>, tag: Seq<char>) -> nat
    decreases keys.len(),
{
    if keys.len() == 0 {
        0
    } else {
        count_of(keys.drop_last(), tag) + if tag_of_key(keys.last()) == tag {
            1nat
        } else {
            0nat
        }
    }
}

/// A count that stops at the largest number.
pub open spec fn capped_count(n: nat) -> nat {
    if n <= u32::MAX {
        n
    } else {
        u32::MAX as nat
    }
}

/// The tags of a list of counts.
pub open spec fn counted_tags(r: Seq<TagCount>) -> Seq<Seq<char>> {
    r.map_values(|t: TagCount| t.tag@)
}

/// Whether `r` lists exactly the tags of `keys`, in order, each with its
/// count, the largest number where it is more.
pub open spec fn counts_tags(r: Seq<TagCount>, keys: Seq<Seq<char>>) -> bool {
    let tags = counted_tags(r);
    &&& forall|i: int, j: int|
        0 <= i < j < tags.len() ==> text_before(#[trigger] tags[i], #[trigger] tags[j])
    &&& forall|i: int|
        0 <= i < r.len() ==> count_of(keys, (#[trigger] r[i]).tag@) > 0 && r[i].count
            == capped_count(count_of(keys, r[i].tag@))
    &&& forall|tag: Seq<char>| #[trigger] count_of(keys, tag) > 0 ==> tags.contains(tag)
}

/// What stands before the first NUL byte.
spec fn cut(b: Seq<u8>) -> Seq<u8>
    decreases b.len(),
{
    if b.len() == 0 || b[0] == 0 {
        Seq::empty()
    } else {
        seq![b[0]] + cut(b.drop_first())
    }
}

/// Cutting at the first NUL keeps the order.
proof fn lemma_cut_order(a: Seq<u8>, b: Seq<u8>)
    requires
        before(a, b),
    ensures
        cut(a) == cut(b) || before(cut(a), cut(b)),
    decreases a.len(),
{
    if a.len() == 0 {
        if cut(b).len() == 0 {
            assert(cut(a) =~= cut(b));
        }
    } else if a[0] == b[0] {
        lemma_cut_order(a.drop_first(), b.drop_first());
        if a[0] != 0 {
            assert(cut(a).drop_first() =~= cut(a.drop_first()));
            assert(cut(b).drop_first() =~= cut(b.drop_first()));
        }
    } else if a[0] == 0 {
        assert(cut(b).len() > 0);
    } else {
        assert(cut(a)[0] == a[0] && cut(b)[0] == b[0]);
    }
}

/// A text without NUL has no zero byte.
proof fn lemma_no_zero_byte(t: Seq<char>)
    requires
        forall|i: int| 0 <= i < t.len() ==> t[i] != '\0',
    ensures
        forall|i: int| 0 <= i < encode_utf8(t).len() ==> encode_utf8(t)[i] != 0,
    decreases t.len(),
{
    if t.len() > 0 {
        let rest = t.drop_first();
        assert forall|i: int| 0 <= i < rest.len() implies rest[i] != '\0' by {
            assert(rest[i] == t[i + 1]);
        }
        lemma_no_zero_byte(rest);
        let head = encode_scalar(t[0] as u32);
        lemma_scalar_no_zero(t[0], head);
        assert(encode_utf8(t) =~= head + encode_utf8(rest));
    }
}

/// The encoding of a character other than NUL has no zero byte.
proof fn lemma_scalar_no_zero(c: char, b: Seq<u8>)
    requires
        c != '\0',
        b == encode_scalar(c as u32),
    ensures
        forall|i: int| 0 <= i < b.len() ==> b[i] != 0,
{
    let one = seq![c];
    encode_utf8_first_scalar(one);
    encode_utf8_valid_utf8(one);
    assert(one.drop_first() =~= Seq::<char>::empty());
    assert(encode_utf8(one.drop_first()) =~= Seq::<u8>::empty());
    assert(b =~= encode_utf8(one));
    if is_leading_byte_width_1(b[0]) {
        let x = b[0];
        assert(x & 0x7F == x) by (bit_vector)
            requires
                x <= 0x7f,
        ;
        char_u32_cast(c, decode_first_scalar(b));
        if x == 0 {
            assert(c as u32 == 0);
        }
    }
}

/// Cutting the bytes of a key at the first NUL gives the bytes of its tag.
proof fn lemma_cut_tag(k: Seq<char>)
    ensures
        cut(encode_utf8(k)) == encode_utf8(tag_of_key(k)),
{
    lemma_find(k, '\0');
    let t = tag_of_key(k);
    let e = encode_utf8(t);
    assert forall|i: int| 0 <= i < t.len() implies t[i] != '\0' by {
        assert(t[i] == k[i]);
    }
    lemma_no_zero_byte(t);
    if find(k, '\0') < k.len() {
        let rest = k.skip(find(k, '\0'));
        assert(k =~= t + rest);
        lemma_utf8_concat(t, rest);
        assert(rest[0] == '\0');
        assert(encode_utf8(rest)[0] == 0) by {
            assert(encode_utf8(rest) =~= encode_scalar(rest[0] as u32) + encode_utf8(
                rest.drop_first(),
            ));
            lemma_nul_byte();
        }
        lemma_cut_at(e, encode_utf8(rest));
    } else {
        assert(k =~= t);
        lemma_cut_at(e, Seq::empty());
        assert(e + Seq::<u8>::empty() =~= e);
    }
}

/// NUL is the zero byte.
proof fn lemma_nul_byte()
    ensures
        encode_scalar('\0' as u32) == seq![0u8],
{
    let u = '\0' as u32;
    assert(u == 0);
    assert((0u32 & 0x7F) as u8 == 0u8) by (bit_vector);
    assert(encode_scalar(u) =~= seq![0u8]);
}

/// Cutting at the first NUL takes exactly the bytes before it.
proof fn lemma_cut_at(e: Seq<u8>, rest: Seq<u8>)
    requires
        forall|i: int| 0 <= i < e.len() ==> e[i] != 0,
        rest.len() > 0 ==> rest[0] == 0,
    ensures
        cut(e + rest) == e,
    decreases e.len(),
{
    if e.len() == 0 {
        assert(e + rest =~= rest);
        assert(cut(rest) =~= e);
    } else {
        assert((e + rest).drop_first() =~= e.drop_first() + rest);
        lemma_cut_at(e.drop_first(), rest);
        assert(e =~= seq![e[0]] + e.drop_first());
    }
}

/// Keys in order have their tags in order.
proof fn lemma_tag_order(a: Seq<char>, b: Seq<char>)
    requires
        text_before(a, b),
    ensures
        tag_of_key(a) == tag_of_key(b) || text_before(tag_of_key(a), tag_of_key(b)),
{
    lemma_cut_tag(a);
    lemma_cut_tag(b);
    lemma_cut_order(encode_utf8(a), encode_utf8(b));
    if cut(encode_utf8(a)) == cut(encode_utf8(b)) {
        lemma_utf8_injective(tag_of_key(a), tag_of_key(b));
    }
}

/// The tag of a key in the index.
fn key_tag(k: &str) -> (r: String)
    ensures
        r@ == tag_of_key(k@),
{
    let chars = chars_of(k);
    let i: usize = find_from(&chars, 0, '\0');
    assert(chars@.skip(0) =~= k@);
    assert(k@.subrange(0, i as int) =~= k@.take(i as int));
    text_of(&chars, 0, i)
}

/// One more key adds to the count of its tag.
proof fn lemma_count_push(past: Seq<Seq<char>>, k: Seq<char>, tag: Seq<char>)
    ensures
        count_of(past.push(k), tag) == count_of(past, tag) + if tag_of_key(k) == tag {
            1nat
        } else {
            0nat
        },
{
    assert(past.push(k).drop_last() =~= past);
}

/// One more key with the last tag is counted there.
proof fn lemma_count_again(was: Seq<TagCount>, last: TagCount, past: Seq<Seq<char>>, k: Seq<char>)
    requires
        counts_tags(was, past),
        was.len() > 0,
        was.last().tag@ == tag_of_key(k),
        last.tag@ == tag_of_key(k),
        last.count == capped_count((was.last().count + 1) as nat),
    ensures
        counts_tags(was.drop_last().push(last), past.push(k)),
{
    let n = was.len() - 1;
    let out = was.drop_last().push(last);
    let now = past.push(k);
    let tags = counted_tags(was);
    assert(counted_tags(out) =~= tags);
    assert forall|a: int| 0 <= a < out.len() implies count_of(now, (#[trigger] out[a]).tag@) > 0
        && out[a].count == capped_count(count_of(now, out[a].tag@)) by {
        lemma_count_push(past, k, out[a].tag@);
        assert(count_of(past, was[a].tag@) > 0);
        if a < n {
            assert(text_before(tags[a], tags[n]));
            lemma_before_irreflexive(encode_utf8(tags[a]));
        }
    }
    assert forall|tag: Seq<char>| #[trigger] count_of(now, tag) > 0 implies tags.contains(tag) by {
        lemma_count_push(past, k, tag);
        if tag == tag_of_key(k) {
            assert(tags[n] == tag);
        }
    }
}

/// A key with a later tag opens a new count.
proof fn lemma_count_new(was: Seq<TagCount>, fresh: TagCount, past: Seq<Seq<char>>, k: Seq<char>)
    requires
        counts_tags(was, past),
        was.len() > 0 ==> text_before(was.last().tag@, tag_of_key(k)),
        fresh.tag@ == tag_of_key(k),
        fresh.count == 1,
    ensures
        counts_tags(was.push(fresh), past.push(k)),
{
    let n = was.len() as int;
    let out = was.push(fresh);
    let now = past.push(k);
    let t = tag_of_key(k);
    let tags = counted_tags(was);
    let all = counted_tags(out);
    assert(all =~= tags.push(t));
    assert forall|a: int| 0 <= a < n implies text_before(#[trigger] tags[a], t) by {
        if a < n - 1 {
            assert(text_before(tags[a], tags[n - 1]));
            lemma_before_transitive(
                encode_utf8(tags[a]),
                encode_utf8(tags[n - 1]),
                encode_utf8(t),
            );
        }
    }
    lemma_before_irreflexive(encode_utf8(t));
    assert(count_of(past, t) == 0) by {
        if count_of(past, t) > 0 {
            assert(tags.contains(t));
        }
    }
    assert forall|a: int| 0 <= a < out.len() implies count_of(now, (#[trigger] out[a]).tag@) > 0
        && out[a].count == capped_count(count_of(now, out[a].tag@)) by {
        lemma_count_push(past, k, out[a].tag@);
        if a < n {
            assert(out[a] == was[a]);
            assert(text_before(tags[a], t));
        }
    }
    assert forall|tag: Seq<char>| #[trigger] count_of(now, tag) > 0 implies all.contains(tag) by {
        lemma_count_push(past, k, tag);
        if tag == t {
            assert(all[n] == t);
        } else {
            assert(tags.contains(tag));
            let a = choose|a: int| 0 <= a < tags.len() && tags[a] == tag;
            assert(all[a] == tag);
        }
    }
    assert forall|a: int, b: int| 0 <= a < b < all.len() implies text_before(
        #[trigger] all[a],
        #[trigger] all[b],
    ) by {
        assert(all[a] == tags[a]);
        if b < n {
            assert(all[b] == tags[b]);
        }
    }
}

/// Every tag in use with how many names carry it, in tag order.
pub fn tags(store: &Store) -> (r: Vec<TagCount>)
    ensures
        counts_tags(r@, texts_in_order(store@.tags)),
        lists_texts(texts_in_order(store@.tags), store@.tags),
        in_step(store@) ==> counts_carriers(r@, store@.records),
{
    let keys = store.tags.keys();
    let ghost all = texts(keys@);
    let mut out: Vec<TagCount> = Vec::new();
    let mut i: usize = 0;
    while i < keys.len()
        invariant
            i <= keys@.len(),
            all == texts(keys@),
            lists_texts(all, store@.tags),
            counts_tags(out@, all.take(i as int)),
            out@.len() > 0 <==> i > 0,
            i > 0 ==> out@.last().tag@ == tag_of_key(all[i - 1]),
        decreases keys.len() - i,
    {
        let tag = key_tag(keys[i].as_str());
        let ghost past = all.take(i as int);
        let ghost was = out@;
        let ghost k = all[i as int];
        let n: usize = out.len();
        proof {
            assert(k == keys@[i as int]@);
            assert(all.take(i + 1) =~= past.push(k));
            if i > 0 {
                assert(text_before(all[i - 1], k));
                lemma_tag_order(all[i - 1], k);
            }
        }
        if n > 0 && same_text(out[n - 1].tag.as_str(), tag.as_str()) {
            let mut last = out.pop().unwrap();
            last.count = last.count.saturating_add(1);
            proof {
                lemma_count_again(was, last, past, k);
            }
            out.push(last);
        } else {
            let fresh = TagCount { tag, count: 1 };
            proof {
                lemma_count_new(was, fresh, past, k);
            }
            out.push(fresh);
        }
        i += 1;
    }
    assert(all.take(i as int) =~= all);
    proof {
        if in_step(store@) {
            law_tags_are_counted(store@, out@);
        }
    }
    out
}

// --- search -------------------------------------------------------------------------

/// What to search for.
#[derive(Debug)]
pub struct SearchQuery {
    /// Case-insensitive substring of the name or the description.
    pub q: Option<String>,
    /// Only names carrying this tag.
    pub tag: Option<String>,
    pub offset: Option<u32>,
    /// At most MAX_LIMIT; DEFAULT_LIMIT when absent.
    pub limit: Option<u32>,
}

/// A query by its contents.
#[verifier::ext_equal]
pub struct QueryState {
    pub q: Option<Seq<char>>,
    pub tag: Option<Seq<char>>,
    pub offset: Option<u32>,
    pub limit: Option<u32>,
}

impl View for SearchQuery {
    type V = QueryState;

    open spec fn view(&self) -> QueryState {
        QueryState {
            q: seen(self.q),
            tag: seen(self.tag),
            offset: self.offset,
            limit: self.limit,
        }
    }
}

impl Default for SearchQuery {
    fn default() -> (r: Self)
        ensures
            r.q is None && r.tag is None && r.offset is None && r.limit is None,
    {
        SearchQuery { q: None, tag: None, offset: None, limit: None }
    }
}

/// One directory entry: the record fields a listing shows, with the
/// provenance text records lifted out.
#[derive(Debug, PartialEq, Eq)]
pub struct Hit {
    pub name: String,
    pub target: Target,
    pub description: Option<String>,
    pub tags: Vec<String>,
    pub repo: Option<String>,
    pub commit: Option<String>,
    pub module_hash: Option<String>,
    pub updated_ns: u64,
}

/// A directory entry by its contents.
#[verifier::ext_equal]
pub struct HitState {
    pub name: Seq<char>,
    pub target: TargetState,
    pub description: Option<Seq<char>>,
    pub tags: Seq<Seq<char>>,
    pub repo: Option<Seq<char>>,
    pub commit: Option<Seq<char>>,
    pub module_hash: Option<Seq<char>>,
    pub updated_ns: u64,
}

impl View for Hit {
    type V = HitState;

    open spec fn view(&self) -> HitState {
        HitState {
            name: self.name@,
            target: self.target@,
            description: seen(self.description),
            tags: texts(self.tags@),
            repo: seen(self.repo),
            commit: seen(self.commit),
            module_hash: seen(self.module_hash),
            updated_ns: self.updated_ns,
        }
    }
}

/// What a search found.
#[derive(Debug)]
pub struct SearchResult {
    /// Matches before paging.
    pub total: u32,
    pub offset: u32,
    pub hits: Vec<Hit>,
}

/// The entry of a record.
pub open spec fn hit_of(r: RecordState) -> HitState {
    HitState {
        name: r.name,
        target: r.target,
        description: text_value(r.text, "description"@),
        tags: record_tags(r),
        repo: text_value(r.text, "repo"@),
        commit: text_value(r.text, "commit"@),
        module_hash: text_value(r.text, "module_hash"@),
        updated_ns: r.updated_ns,
    }
}

/// The entry of a record.
fn hit(r: &Record) -> (h: Hit)
    ensures
        h@ == hit_of(r@),
{
    Hit {
        name: r.name.clone(),
        target: r.target.clone(),
        description: r.text("description"),
        tags: tags_of(r),
        repo: r.text("repo"),
        commit: r.text("commit"),
        module_hash: r.text("module_hash"),
        updated_ns: r.updated_ns,
    }
}

/// Whether a record matches a search text, which is in small letters.
pub open spec fn matches_text(r: RecordState, q: Seq<char>) -> bool {
    ||| q.len() == 0
    ||| occurs(q, r.name)
    ||| text_value(r.text, "description"@) matches Some(d) && occurs(q, lowered(d))
}

/// Whether a record matches a search text.
fn is_match(r: &Record, q: &str) -> (b: bool)
    ensures
        b == matches_text(r@, q@),
{
    let n: usize = chars_of(q).len();
    if n == 0 {
        return true;
    }
    if has_text(r.name.as_str(), q) {
        return true;
    }
    match r.text("description") {
        Some(d) => {
            let small = lower_text(d.as_str());
            has_text(small.as_str(), q)
        },
        None => false,
    }
}

/// The text a query searches for.
pub open spec fn wanted_text(query: QueryState) -> Seq<char> {
    match query.q {
        Some(q) => lowered(trimmed(q)),
        None => Seq::empty(),
    }
}

/// The tag a query asks for, if it asks for one.
pub open spec fn wanted_tag(query: QueryState) -> Option<Seq<char>> {
    match query.tag {
        Some(t) if trimmed(t).len() > 0 => Some(trimmed(t)),
        _ => None,
    }
}

/// The records of some names, in their order; a name without one is left
/// out.
pub open spec fn records_of(
    names: Seq<Seq<char>>,
    records: Map<Seq<char>, RecordState>,
) -> Seq<RecordState>
    decreases names.len(),
{
    if names.len() == 0 {
        Seq::empty()
    } else {
        let rest = records_of(names.drop_last(), records);
        if records.contains_key(names.last()) {
            rest.push(records[names.last()])
        } else {
            rest
        }
    }
}

/// The records that a query looks at: those carrying its tag, or all.
pub open spec fn searched(s: StoreState, query: QueryState) -> Seq<RecordState> {
    match wanted_tag(query) {
        Some(tag) => records_of(texts_in_order(tagged_names(s.tags, tag)), s.records),
        None => values_in_order(s.records),
    }
}

/// The records that a query finds, in name order.
pub open spec fn found(s: StoreState, query: QueryState) -> Seq<RecordState> {
    searched(s, query).filter(|r: RecordState| matches_text(r, wanted_text(query)))
}

/// Where the page of a query starts.
pub open spec fn page_offset(query: QueryState) -> u32 {
    match query.offset {
        Some(n) => n,
        None => 0,
    }
}

/// The most entries on the page of a query.
pub open spec fn page_limit(query: QueryState) -> u32 {
    let n = match query.limit {
        Some(n) => n,
        None => DEFAULT_LIMIT,
    };
    if n < 1 {
        1
    } else if n > MAX_LIMIT {
        MAX_LIMIT
    } else {
        n
    }
}

/// The part of a list on a page.
pub open spec fn page(s: Seq<RecordState>, offset: int, limit: int) -> Seq<RecordState> {
    let from = if offset <= s.len() {
        offset
    } else {
        s.len() as int
    };
    let to = if from + limit <= s.len() {
        from + limit
    } else {
        s.len() as int
    };
    s.subrange(from, to)
}

/// One more found record goes onto the page if it is in its range.
proof fn lemma_page_push(s: Seq<RecordState>, r: RecordState, offset: int, limit: int)
    requires
        0 <= offset,
        0 <= limit,
    ensures
        s.len() >= offset && page(s, offset, limit).len() < limit ==> page(
            s.push(r),
            offset,
            limit,
        ) == page(s, offset, limit).push(r),
        !(s.len() >= offset && page(s, offset, limit).len() < limit) ==> page(
            s.push(r),
            offset,
            limit,
        ) == page(s, offset, limit),
{
    let (p, q) = (page(s, offset, limit), page(s.push(r), offset, limit));
    if s.len() >= offset && p.len() < limit {
        assert(q =~= p.push(r));
    } else {
        assert(q =~= p);
    }
}

/// Search the directory.
pub fn search(store: &Store, query: SearchQuery) -> (r: SearchResult)
    ensures
        r.total == capped_count(found(store@, query@).len()),
        r.offset == page_offset(query@),
        views(r.hits@) == page(
            found(store@, query@),
            page_offset(query@) as int,
            page_limit(query@) as int,
        ).map_values(|x: RecordState| hit_of(x)),
        in_step(store@) ==> answers_query(store@, query@, r),
{
    store.records.facts();
    let q = match &query.q {
        Some(q) => {
            let t = trim_text(q.as_str());
            lower_text(t.as_str())
        },
        None => String::new(),
    };
    assert(q@ =~= wanted_text(query@));
    let offset: u32 = match query.offset {
        Some(n) => n,
        None => 0,
    };
    let asked: u32 = match query.limit {
        Some(n) => n,
        None => DEFAULT_LIMIT,
    };
    let limit: u32 = if asked < 1 {
        1
    } else if asked > MAX_LIMIT {
        MAX_LIMIT
    } else {
        asked
    };
    let tag = match &query.tag {
        Some(t) => {
            let t = trim_text(t.as_str());
            if chars_of(t.as_str()).len() > 0 {
                Some(t)
            } else {
                None
            }
        },
        None => None,
    };
    let records = match &tag {
        Some(tag) => records_named(store, &names_with_tag(store, tag.as_str())),
        None => for_each_record(store),
    };
    let ghost all = searched(store@, query@);
    let ghost keep = |r: RecordState| matches_text(r, wanted_text(query@));
    assert(views(records@) == all);
    let mut total: u32 = 0;
    let mut hits: Vec<Hit> = Vec::new();
    let mut i: usize = 0;
    proof {
        reveal(Seq::filter);
        assert(all.take(0) =~= Seq::<RecordState>::empty());
        assert(views(hits@) =~= page(
            all.take(0).filter(keep),
            offset as int,
            limit as int,
        ).map_values(|x: RecordState| hit_of(x)));
    }
    while i < records.len()
        invariant
            i <= records@.len(),
            views(records@) == all,
            q@ == wanted_text(query@),
            keep == (|r: RecordState| matches_text(r, wanted_text(query@))),
            1 <= limit <= MAX_LIMIT,
            total == capped_count(all.take(i as int).filter(keep).len()),
            views(hits@) == page(
                all.take(i as int).filter(keep),
                offset as int,
                limit as int,
            ).map_values(|x: RecordState| hit_of(x)),
        decreases records.len() - i,
    {
        let r = &records[i];
        let ghost past = all.take(i as int).filter(keep);
        let ghost now = all.take(i + 1);
        let ghost shown = page(past, offset as int, limit as int);
        proof {
            assert(r@ == views(records@)[i as int]);
            assert(now.drop_last() =~= all.take(i as int));
            assert(now.last() == r@);
            reveal(Seq::filter);
            lemma_page_push(past, r@, offset as int, limit as int);
            assert(views(hits@).len() == hits@.len());
            assert(shown.len() == shown.map_values(|x: RecordState| hit_of(x)).len());
        }
        if is_match(r, q.as_str()) {
            assert(now.filter(keep) =~= past.push(r@));
            if total >= offset && hits.len() < limit as usize {
                let ghost before = hits@;
                hits.push(hit(r));
                proof {
                    assert(views(hits@) =~= views(before).push(hit_of(r@)));
                    assert(shown.push(r@).map_values(|x: RecordState| hit_of(x))
                        =~= shown.map_values(|x: RecordState| hit_of(x)).push(hit_of(r@)));
                }
            }
            total = total.saturating_add(1);
        }
        i += 1;
    }
    assert(all.take(i as int) =~= all);
    let r = SearchResult { total, offset, hits };
    proof {
        if in_step(store@) {
            lemma_answers_query(store@, query@, r);
        }
    }
    r
}

/// The records of some names, in their order.
fn records_named(store: &Store, names: &Vec<String>) -> (r: Vec<Record>)
    ensures
        views(r@) == records_of(texts(names@), store@.records),
{
    let ghost all = texts(names@);
    let mut out: Vec<Record> = Vec::new();
    let mut i: usize = 0;
    assert(views(out@) =~= records_of(all.take(0), store@.records));
    while i < names.len()
        invariant
            i <= names@.len(),
            all == texts(names@),
            views(out@) == records_of(all.take(i as int), store@.records),
        decreases names.len() - i,
    {
        proof {
            assert(all.take(i + 1).drop_last() =~= all.take(i as int));
            assert(all.take(i + 1).last() == names@[i as int]@);
        }
        match get_record(store, names[i].as_str()) {
            Some(r) => {
                let ghost before = out@;
                out.push(r);
                assert(views(out@) =~= views(before).push(r@));
            },
            None => {},
        }
        i += 1;
    }
    assert(all.take(i as int) =~= all);
    out
}

// --- the index in step ----------------------------------------------------------------------

/// Where the index is in step with the records and holds no stray NUL, the
/// names listed for a tag are exactly those whose record carries it.
pub proof fn lemma_tag_finds_its_names(
    records: Map<Seq<char>, RecordState>,
    tag: Seq<char>,
    name: Seq<char>,
)
    requires
        !tag.contains('\0'),
        forall|n: Seq<char>, i: int|
            records.contains_key(n) && 0 <= i < record_tags(records[n]).len()
                ==> !(#[trigger] record_tags(records[n])[i]).contains('\0'),
        forall|n: Seq<char>| #[trigger] records.contains_key(n) ==> records[n].name == n,
    ensures
        tagged_names(index_of(records), tag).contains(name) <==> records.contains_key(name)
            && record_tags(records[name]).contains(tag),
{
    let k = tag_key(tag, name);
    if tagged_names(index_of(records), tag).contains(name) {
        let n = choose|n: Seq<char>| #[trigger]
            records.contains_key(n) && tag_keys(records[n]).contains(k);
        let i = choose|i: int|
            0 <= i < record_tags(records[n]).len() && k == tag_key(
                #[trigger] record_tags(records[n])[i],
                records[n].name,
            );
        lemma_key_parts(tag, name, record_tags(records[n])[i], n);
        assert(record_tags(records[n])[i] == tag);
    }
    if records.contains_key(name) && record_tags(records[name]).contains(tag) {
        let tags = record_tags(records[name]);
        let i = choose|i: int| 0 <= i < tags.len() && tags[i] == tag;
        assert(k == tag_key(tags[i], records[name].name));
        assert(tag_keys(records[name]).contains(k));
        assert(index_of(records).contains(k));
    }
}

/// Whether the tag index is in step with the records, which stand under
/// their own names, and no name or tag holds a NUL.
pub open spec fn in_step(s: StoreState) -> bool {
    &&& s.tags == index_of(s.records)
    &&& forall|n: Seq<char>, i: int|
        s.records.contains_key(n) && 0 <= i < record_tags(s.records[n]).len()
            ==> !(#[trigger] record_tags(s.records[n])[i]).contains('\0')
    &&& forall|n: Seq<char>| #[trigger]
        s.records.contains_key(n) ==> s.records[n].name == n && !n.contains('\0')
}

/// The names listed for a tag, whatever it holds, are those whose record
/// carries it.
pub proof fn lemma_tagged(s: StoreState, tag: Seq<char>, name: Seq<char>)
    requires
        in_step(s),
    ensures
        tagged_names(s.tags, tag).contains(name) <==> s.records.contains_key(name) && record_tags(
            s.records[name],
        ).contains(tag),
{
    let records = s.records;
    if !tag.contains('\0') {
        lemma_tag_finds_its_names(records, tag, name);
    } else {
        let k = tag_key(tag, name);
        if tagged_names(s.tags, tag).contains(name) {
            let n = choose|n: Seq<char>| #[trigger]
                records.contains_key(n) && tag_keys(records[n]).contains(k);
            let tags = record_tags(records[n]);
            let i = choose|i: int|
                0 <= i < tags.len() && k == tag_key(#[trigger] tags[i], records[n].name);
            let at = tags[i].len() as int;
            let j = choose|j: int| 0 <= j < tag.len() && tag[j] == '\0';
            reveal_strlit("\0");
            assert(k[j] == '\0' && k[tag.len() as int] == '\0');
            assert(forall|x: int| 0 <= x < at ==> k[x] == tags[i][x]);
            assert(forall|x: int| at < x < k.len() ==> k[x] == n[x - at - 1]);
            if j < at {
                assert(tags[i].contains('\0'));
            } else if j > at {
                assert(n.contains('\0'));
            } else {
                assert(n[tag.len() - at - 1] == '\0');
                assert(n.contains('\0'));
            }
        }
        if records.contains_key(name) && record_tags(records[name]).contains(tag) {
            let tags = record_tags(records[name]);
            let i = choose|i: int| 0 <= i < tags.len() && tags[i] == tag;
            assert(!record_tags(records[name])[i].contains('\0'));
        }
    }
}

// --- what a search finds ----------------------------------------------------------------------

/// Whether a record is one that a query asks for: it carries the tag, where
/// one is asked for, and the text stands in its name or its description,
/// where one is asked for.
pub open spec fn asked_for(query: QueryState, r: RecordState) -> bool {
    &&& query.tag matches Some(tag) ==> trimmed(tag).len() == 0 || (text_value(r.text, "tags"@)
        matches Some(v) && pieces(v, ',').contains(trimmed(tag)))
    &&& query.q matches Some(q) ==> {
        let wanted = lowered(trimmed(q));
        ||| wanted.len() == 0
        ||| occurs(wanted, r.name)
        ||| text_value(r.text, "description"@) matches Some(d) && occurs(wanted, lowered(d))
    }
}

/// Whether a list is of all the records that a query asks for, in name
/// order.
pub open spec fn lists_asked(s: StoreState, query: QueryState, list: Seq<RecordState>) -> bool {
    &&& forall|r: RecordState| #[trigger]
        list.contains(r) <==> s.records.contains_key(r.name) && s.records[r.name] == r
            && asked_for(query, r)
    &&& forall|i: int, j: int|
        0 <= i < j < list.len() ==> text_before(
            (#[trigger] list[i]).name,
            (#[trigger] list[j]).name,
        )
}

/// The records of names in order are in name order, and are those stored.
proof fn lemma_records_of(names: Seq<Seq<char>>, records: Map<Seq<char>, RecordState>)
    requires
        forall|i: int, j: int|
            0 <= i < j < names.len() ==> text_before(#[trigger] names[i], #[trigger] names[j]),
        forall|n: Seq<char>| #[trigger] records.contains_key(n) ==> records[n].name == n,
    ensures
        forall|r: RecordState| #[trigger]
            records_of(names, records).contains(r) <==> names.contains(r.name)
                && records.contains_key(r.name) && records[r.name] == r,
        forall|i: int, j: int|
            0 <= i < j < records_of(names, records).len() ==> text_before(
                (#[trigger] records_of(names, records)[i]).name,
                (#[trigger] records_of(names, records)[j]).name,
            ),
    decreases names.len(),
{
    let out = records_of(names, records);
    if names.len() > 0 {
        let past = names.drop_last();
        let last = names.last();
        let before = records_of(past, records);
        assert forall|i: int, j: int| 0 <= i < j < past.len() implies text_before(
            #[trigger] past[i],
            #[trigger] past[j],
        ) by {
            assert(past[i] == names[i] && past[j] == names[j]);
        }
        lemma_records_of(past, records);
        assert forall|r: RecordState| #[trigger] out.contains(r) <==> names.contains(r.name)
            && records.contains_key(r.name) && records[r.name] == r by {
            if out.contains(r) {
                let i = choose|i: int| 0 <= i < out.len() && out[i] == r;
                if i < before.len() {
                    assert(before[i] == r);
                    assert(before.contains(r));
                    let j = choose|j: int| 0 <= j < past.len() && past[j] == r.name;
                    assert(names[j] == r.name);
                } else {
                    assert(names[names.len() - 1] == r.name);
                }
            }
            if names.contains(r.name) && records.contains_key(r.name) && records[r.name] == r {
                let j = choose|j: int| 0 <= j < names.len() && names[j] == r.name;
                if j < past.len() {
                    assert(past[j] == r.name);
                    assert(before.contains(r));
                    let i = choose|i: int| 0 <= i < before.len() && before[i] == r;
                    assert(out[i] == r);
                } else {
                    assert(out[out.len() - 1] == r);
                }
            }
        }
        assert forall|i: int, j: int| 0 <= i < j < out.len() implies text_before(
            (#[trigger] out[i]).name,
            (#[trigger] out[j]).name,
        ) by {
            assert(out[i] == before[i]);
            if j < before.len() {
                assert(out[j] == before[j]);
            } else {
                assert(before.contains(before[i]));
                let a = choose|a: int| 0 <= a < past.len() && past[a] == before[i].name;
                assert(names[a] == past[a]);
                assert(text_before(names[a], names[names.len() - 1]));
            }
        }
    }
}

/// Keeping some records keeps their order.
proof fn lemma_filter_order(list: Seq<RecordState>, keep: spec_fn(RecordState) -> bool)
    requires
        forall|i: int, j: int|
            0 <= i < j < list.len() ==> text_before(
                (#[trigger] list[i]).name,
                (#[trigger] list[j]).name,
            ),
    ensures
        forall|i: int, j: int|
            0 <= i < j < list.filter(keep).len() ==> text_before(
                (#[trigger] list.filter(keep)[i]).name,
                (#[trigger] list.filter(keep)[j]).name,
            ),
        forall|r: RecordState| #[trigger]
            list.filter(keep).contains(r) <==> list.contains(r) && keep(r),
    decreases list.len(),
{
    reveal(Seq::filter);
    let out = list.filter(keep);
    if list.len() > 0 {
        let past = list.drop_last();
        let before = past.filter(keep);
        let last = list.last();
        assert forall|i: int, j: int| 0 <= i < j < past.len() implies text_before(
            (#[trigger] past[i]).name,
            (#[trigger] past[j]).name,
        ) by {
            assert(past[i] == list[i] && past[j] == list[j]);
        }
        lemma_filter_order(past, keep);
        assert(out == if keep(last) {
            before.push(last)
        } else {
            before
        });
        assert forall|r: RecordState| #[trigger] out.contains(r) <==> list.contains(r) && keep(
            r,
        ) by {
            if out.contains(r) {
                let i = choose|i: int| 0 <= i < out.len() && out[i] == r;
                if i < before.len() {
                    assert(before[i] == r);
                    assert(before.contains(r));
                    let j = choose|j: int| 0 <= j < past.len() && past[j] == r;
                    assert(list[j] == r);
                } else {
                    assert(list[list.len() - 1] == r);
                }
            }
            if list.contains(r) && keep(r) {
                let j = choose|j: int| 0 <= j < list.len() && list[j] == r;
                if j < past.len() {
                    assert(past[j] == r);
                    assert(before.contains(r));
                    let i = choose|i: int| 0 <= i < before.len() && before[i] == r;
                    assert(out[i] == r);
                } else {
                    assert(out[out.len() - 1] == r);
                }
            }
        }
        assert forall|i: int, j: int| 0 <= i < j < out.len() implies text_before(
            (#[trigger] out[i]).name,
            (#[trigger] out[j]).name,
        ) by {
            assert(out[i] == before[i]);
            if j < before.len() {
                assert(out[j] == before[j]);
            } else {
                assert(before.contains(before[i]));
                let a = choose|a: int| 0 <= a < past.len() && past[a] == before[i];
                assert(list[a] == past[a]);
                assert(text_before(list[a].name, list[list.len() - 1].name));
            }
        }
    } else {
        assert(out =~= list);
    }
}

/// A search finds exactly the stored records that are asked for, by tag and
/// by text alike where both are given, in name order.
pub proof fn law_search_finds_what_is_asked(s: StoreState, query: QueryState)
    requires
        in_step(s),
        s.records.dom().finite(),
    ensures
        lists_asked(s, query, found(s, query)),
{
    let records = s.records;
    let all = searched(s, query);
    let keep = |r: RecordState| matches_text(r, wanted_text(query));
    match wanted_tag(query) {
        Some(tag) => {
            let named = tagged_names(s.tags, tag);
            assert forall|n: Seq<char>| #[trigger] named.contains(n) implies records.dom().contains(
                n,
            ) by {
                lemma_tagged(s, tag, n);
            }
            vstd::set_lib::lemma_set_subset_finite(records.dom(), named);
            lemma_texts_listed(named);
            let names = texts_in_order(named);
            lemma_records_of(names, records);
            assert forall|r: RecordState| #[trigger] all.contains(r) <==> records.contains_key(
                r.name,
            ) && records[r.name] == r && record_tags(r).contains(tag) by {
                lemma_tagged(s, tag, r.name);
                if names.contains(r.name) {
                    let i = choose|i: int| 0 <= i < names.len() && names[i] == r.name;
                    assert(named.contains(names[i]));
                }
            }
        },
        None => {
            lemma_texts_listed(records.dom());
            let names = texts_in_order(records.dom());
            assert forall|i: int, j: int| 0 <= i < j < all.len() implies text_before(
                (#[trigger] all[i]).name,
                (#[trigger] all[j]).name,
            ) by {
                assert(records.dom().contains(names[i]) && records.dom().contains(names[j]));
                assert(text_before(names[i], names[j]));
            }
            assert forall|r: RecordState| #[trigger] all.contains(r) <==> records.contains_key(
                r.name,
            ) && records[r.name] == r by {
                if all.contains(r) {
                    let i = choose|i: int| 0 <= i < all.len() && all[i] == r;
                    assert(records.dom().contains(names[i]));
                }
                if records.contains_key(r.name) && records[r.name] == r {
                    assert(records.dom().contains(r.name));
                    let i = choose|i: int| 0 <= i < names.len() && names[i] == r.name;
                    assert(all[i] == r);
                }
            }
        },
    }
    lemma_filter_order(all, keep);
}

/// Whether an entry shows a record: its name and where it points, its
/// description, tags and provenance, and when it was last written.
pub open spec fn shows(h: HitState, r: RecordState) -> bool {
    &&& h.name == r.name
    &&& h.target == r.target
    &&& h.description == text_value(r.text, "description"@)
    &&& h.tags == match text_value(r.text, "tags"@) {
        Some(v) => pieces(v, ','),
        None => Seq::empty(),
    }
    &&& h.repo == text_value(r.text, "repo"@)
    &&& h.commit == text_value(r.text, "commit"@)
    &&& h.module_hash == text_value(r.text, "module_hash"@)
    &&& h.updated_ns == r.updated_ns
}

/// Whether a result is a page of a list: how many there are, where the page
/// starts, and the entries from there on, 1 to 100 of them as asked, 20
/// where nothing is asked.
pub open spec fn shows_page(r: SearchResult, query: QueryState, list: Seq<RecordState>) -> bool {
    let from = match query.offset {
        Some(n) => n as int,
        None => 0,
    };
    let most = match query.limit {
        Some(n) => if n == 0 {
            1
        } else if n > 100 {
            100
        } else {
            n as int
        },
        None => 20,
    };
    &&& list.len() <= u32::MAX ==> r.total == list.len()
    &&& list.len() > u32::MAX ==> r.total == u32::MAX
    &&& r.offset == from
    &&& r.hits@.len() == if from >= list.len() {
        0
    } else if list.len() - from < most {
        list.len() - from
    } else {
        most
    }
    &&& forall|i: int| 0 <= i < r.hits@.len() ==> shows((#[trigger] r.hits@[i])@, list[from + i])
}

/// Whether a result answers a query: it shows a page of what is asked for.
pub open spec fn answers_query(s: StoreState, query: QueryState, r: SearchResult) -> bool {
    exists|list: Seq<RecordState>| #[trigger]
        lists_asked(s, query, list) && shows_page(r, query, list)
}

/// The page of what is found answers the query.
proof fn lemma_answers_query(s: StoreState, query: QueryState, r: SearchResult)
    requires
        in_step(s),
        s.records.dom().finite(),
        r.total == capped_count(found(s, query).len()),
        r.offset == page_offset(query),
        views(r.hits@) == page(
            found(s, query),
            page_offset(query) as int,
            page_limit(query) as int,
        ).map_values(|x: RecordState| hit_of(x)),
    ensures
        answers_query(s, query, r),
{
    let list = found(s, query);
    law_search_finds_what_is_asked(s, query);
    let (from, most) = (page_offset(query) as int, page_limit(query) as int);
    let shown = page(list, from, most);
    assert(views(r.hits@).len() == r.hits@.len());
    assert(shown.map_values(|x: RecordState| hit_of(x)).len() == shown.len());
    assert forall|i: int| 0 <= i < r.hits@.len() implies shows(
        (#[trigger] r.hits@[i])@,
        list[from + i],
    ) by {
        assert(views(r.hits@)[i] == r.hits@[i]@);
        assert(shown[i] == list[from + i]);
    }
    assert(shows_page(r, query, list));
}

/// A list of what is asked for has one form, so that pages of it fit
/// together: consecutive offsets show every match once.
pub proof fn law_pages_are_of_one_list(
    s: StoreState,
    query: QueryState,
    a: Seq<RecordState>,
    b: Seq<RecordState>,
)
    requires
        lists_asked(s, query, a),
        lists_asked(s, query, b),
    ensures
        a == b,
{
    let (x, y) = (a.map_values(|r: RecordState| r.name), b.map_values(|r: RecordState| r.name));
    let d = Set::new(|n: Seq<char>| x.contains(n));
    assert forall|n: Seq<char>| x.contains(n) <==> y.contains(n) by {
        if x.contains(n) {
            let i = choose|i: int| 0 <= i < x.len() && x[i] == n;
            assert(a.contains(a[i]));
            assert(b.contains(a[i]));
            let j = choose|j: int| 0 <= j < b.len() && b[j] == a[i];
            assert(y[j] == n);
        }
        if y.contains(n) {
            let i = choose|i: int| 0 <= i < y.len() && y[i] == n;
            assert(b.contains(b[i]));
            assert(a.contains(b[i]));
            let j = choose|j: int| 0 <= j < a.len() && a[j] == b[i];
            assert(x[j] == n);
        }
    }
    assert forall|i: int| 0 <= i < x.len() implies d.contains(#[trigger] x[i]) by {
        assert(x.contains(x[i]));
    }
    assert forall|i: int| 0 <= i < y.len() implies d.contains(#[trigger] y[i]) by {
        assert(y.contains(y[i]));
    }
    assert forall|i: int, j: int| 0 <= i < j < x.len() implies text_before(
        #[trigger] x[i],
        #[trigger] x[j],
    ) by {
        assert(text_before(a[i].name, a[j].name));
    }
    assert forall|i: int, j: int| 0 <= i < j < y.len() implies text_before(
        #[trigger] y[i],
        #[trigger] y[j],
    ) by {
        assert(text_before(b[i].name, b[j].name));
    }
    assert(lists_texts(x, d));
    assert(lists_texts(y, d));
    lemma_texts_in_order(x, d);
    lemma_texts_in_order(y, d);
    assert(x == y);
    assert(a.len() == b.len());
    assert forall|i: int| 0 <= i < a.len() implies a[i] == b[i] by {
        assert(x[i] == y[i]);
        assert(a.contains(a[i]) && b.contains(b[i]));
    }
    assert(a =~= b);
}

/// Which names carry a tag, going by some keys of the index.
pub open spec fn named_in(keys: Seq<Seq<char>>, tag: Seq<char>) -> Set<Seq<char>> {
    Set::new(|n: Seq<char>| keys.contains(tag_key(tag, n)))
}

/// The keys of a tag are as many as the names under it.
proof fn lemma_count_names(keys: Seq<Seq<char>>, tag: Seq<char>)
    requires
        keys.no_duplicates(),
        !tag.contains('\0'),
        forall|i: int| 0 <= i < keys.len() ==> is_key(#[trigger] keys[i]),
    ensures
        named_in(keys, tag).finite(),
        named_in(keys, tag).len() == count_of(keys, tag),
    decreases keys.len(),
{
    let now = named_in(keys, tag);
    if keys.len() == 0 {
        assert(now =~= Set::empty());
    } else {
        let past = keys.drop_last();
        let k = keys.last();
        let before = named_in(past, tag);
        assert forall|i: int| 0 <= i < past.len() implies is_key(#[trigger] past[i]) by {
            assert(past[i] == keys[i]);
        }
        lemma_count_names(past, tag);
        assert(is_key(keys[keys.len() - 1]));
        let (t, m) = choose|t: Seq<char>, m: Seq<char>|
            !t.contains('\0') && k == #[trigger] tag_key(t, m);
        lemma_key_tag(t, m);
        assert forall|n: Seq<char>| keys.contains(#[trigger] tag_key(tag, n)) <==> past.contains(
            tag_key(tag, n),
        ) || k == tag_key(tag, n) by {
            let x = tag_key(tag, n);
            if keys.contains(x) {
                let i = choose|i: int| 0 <= i < keys.len() && keys[i] == x;
                if i < past.len() {
                    assert(past[i] == x);
                }
            }
            if past.contains(x) {
                let i = choose|i: int| 0 <= i < past.len() && past[i] == x;
                assert(keys[i] == x);
            }
            if k == x {
                assert(keys[keys.len() - 1] == x);
            }
        }
        if t == tag {
            assert(!past.contains(k)) by {
                if past.contains(k) {
                    let i = choose|i: int| 0 <= i < past.len() && past[i] == k;
                    assert(keys[i] == keys[keys.len() - 1]);
                }
            }
            assert(now =~= before.insert(m)) by {
                assert forall|n: Seq<char>| now.contains(n) <==> before.insert(m).contains(n) by {
                    assert(keys.contains(tag_key(tag, n)) <==> past.contains(tag_key(tag, n)) || k
                        == tag_key(tag, n));
                    if k == tag_key(tag, n) {
                        lemma_key_parts(t, m, tag, n);
                    }
                }
            }
        } else {
            assert(now =~= before) by {
                assert forall|n: Seq<char>| now.contains(n) <==> before.contains(n) by {
                    assert(keys.contains(tag_key(tag, n)) <==> past.contains(tag_key(tag, n)) || k
                        == tag_key(tag, n));
                    if k == tag_key(tag, n) {
                        lemma_key_parts(t, m, tag, n);
                    }
                }
            }
        }
    }
}

/// Whether a text is a key of a tag without a NUL.
pub open spec fn is_key(k: Seq<char>) -> bool {
    exists|t: Seq<char>, m: Seq<char>| !t.contains('\0') && k == #[trigger] tag_key(t, m)
}

/// The names whose record carries a tag.
pub open spec fn carriers(records: Map<Seq<char>, RecordState>, tag: Seq<char>) -> Set<Seq<char>> {
    Set::new(
        |n: Seq<char>|
            records.contains_key(n) && (text_value(records[n].text, "tags"@) matches Some(v)
                && pieces(v, ',').contains(tag)),
    )
}

/// Whether a list counts tags: each tag that some record carries once, in
/// order, with how many records carry it.
pub open spec fn counts_carriers(r: Seq<TagCount>, records: Map<Seq<char>, RecordState>) -> bool {
    &&& forall|i: int|
        0 <= i < r.len() ==> {
            let n = carriers(records, (#[trigger] r[i]).tag@).len();
            &&& n > 0
            &&& r[i].count == if n <= u32::MAX {
                n
            } else {
                u32::MAX as nat
            }
        }
    &&& forall|tag: Seq<char>, n: Seq<char>|
        carriers(records, tag).contains(n) ==> #[trigger] lists_tag(r, tag, n)
    &&& forall|i: int, j: int|
        0 <= i < j < r.len() ==> text_before((#[trigger] r[i]).tag@, (#[trigger] r[j]).tag@)
}

/// Whether a tag that a name carries is in the list.
pub open spec fn lists_tag(r: Seq<TagCount>, tag: Seq<char>, name: Seq<char>) -> bool {
    exists|i: int| 0 <= i < r.len() && (#[trigger] r[i]).tag@ == tag
}

/// The tags in use are those of the records, and are counted by them.
pub proof fn law_tags_are_counted(s: StoreState, r: Seq<TagCount>)
    requires
        in_step(s),
        lists_texts(texts_in_order(s.tags), s.tags),
        counts_tags(r, texts_in_order(s.tags)),
    ensures
        counts_carriers(r, s.records),
{
    let keys = texts_in_order(s.tags);
    let records = s.records;
    assert(keys.no_duplicates()) by {
        assert forall|i: int, j: int| 0 <= i < keys.len() && 0 <= j < keys.len() && i
            != j implies keys[i] != keys[j] by {
            if i < j {
                lemma_before_irreflexive(encode_utf8(keys[i]));
                assert(text_before(keys[i], keys[j]));
            } else {
                lemma_before_irreflexive(encode_utf8(keys[j]));
                assert(text_before(keys[j], keys[i]));
            }
        }
    }
    assert forall|i: int| 0 <= i < keys.len() implies is_key(#[trigger] keys[i]) by {
        let k = keys[i];
        assert(s.tags.contains(k));
        let n = choose|n: Seq<char>| #[trigger]
            records.contains_key(n) && tag_keys(records[n]).contains(k);
        let tags = record_tags(records[n]);
        let j = choose|j: int|
            0 <= j < tags.len() && k == tag_key(#[trigger] tags[j], records[n].name);
        assert(!record_tags(records[n])[j].contains('\0'));
    }
    assert forall|tag: Seq<char>| !tag.contains('\0') implies count_of(keys, tag) == #[trigger]
        carriers(records, tag).len() by {
        lemma_count_names(keys, tag);
        assert(named_in(keys, tag) =~= carriers(records, tag)) by {
            assert forall|n: Seq<char>| named_in(keys, tag).contains(n) <==> carriers(
                records,
                tag,
            ).contains(n) by {
                lemma_tagged(s, tag, n);
                if keys.contains(tag_key(tag, n)) {
                    let i = choose|i: int| 0 <= i < keys.len() && keys[i] == tag_key(tag, n);
                    assert(s.tags.contains(keys[i]));
                }
            }
        }
    }
    let tags = counted_tags(r);
    assert forall|i: int| 0 <= i < r.len() implies !(#[trigger] r[i]).tag@.contains('\0') by {
        assert(count_of(keys, r[i].tag@) > 0);
        lemma_counted_no_nul(keys, r[i].tag@);
    }
    assert forall|tag: Seq<char>, n: Seq<char>|
        carriers(records, tag).contains(n) implies #[trigger] lists_tag(r, tag, n) by {
        let own = record_tags(records[n]);
        let i = choose|i: int| 0 <= i < own.len() && own[i] == tag;
        assert(!record_tags(records[n])[i].contains('\0'));
        lemma_count_names(keys, tag);
        lemma_tagged(s, tag, n);
        assert(s.tags.contains(tag_key(tag, n)));
        assert(named_in(keys, tag).contains(n));
        assert(named_in(keys, tag).len() > 0) by {
            if named_in(keys, tag).len() == 0 {
                named_in(keys, tag).lemma_len0_is_empty();
            }
        }
        assert(tags.contains(tag));
        let j = choose|j: int| 0 <= j < tags.len() && tags[j] == tag;
        assert(r[j].tag@ == tag);
    }
    assert forall|i: int, j: int| 0 <= i < j < r.len() implies text_before(
        (#[trigger] r[i]).tag@,
        (#[trigger] r[j]).tag@,
    ) by {
        assert(tags[i] == r[i].tag@ && tags[j] == r[j].tag@);
    }
}

/// A tag that some key has holds no NUL.
proof fn lemma_counted_no_nul(keys: Seq<Seq<char>>, tag: Seq<char>)
    requires
        count_of(keys, tag) > 0,
    ensures
        !tag.contains('\0'),
    decreases keys.len(),
{
    if keys.len() > 0 {
        let k = keys.last();
        if tag_of_key(k) == tag {
            lemma_find(k, '\0');
            if tag.contains('\0') {
                let i = choose|i: int| 0 <= i < tag.len() && tag[i] == '\0';
                assert(k[i] == '\0');
            }
        } else {
            lemma_counted_no_nul(keys.drop_last(), tag);
        }
    }
}

/// The tag of a key stands before its NUL.
proof fn lemma_key_tag(tag: Seq<char>, name: Seq<char>)
    requires
        !tag.contains('\0'),
    ensures
        tag_of_key(tag_key(tag, name)) == tag,
        tag_key(tag, name).len() == tag.len() + 1 + name.len(),
        tag_key(tag, name).skip(tag.len() as int + 1) == name,
{
    reveal_strlit("\0");
    let k = tag_key(tag, name);
    assert(k[tag.len() as int] == '\0');
    assert forall|j: int| 0 <= j < tag.len() implies k[j] != '\0' by {
        assert(k[j] == tag[j]);
    }
    lemma_find_is(k, '\0', tag.len() as int);
    assert(k.take(tag.len() as int) =~= tag);
    assert(k.skip(tag.len() as int + 1) =~= name);
}

/// A key of the index determines its tag and its name.
proof fn lemma_key_parts(a: Seq<char>, m: Seq<char>, b: Seq<char>, n: Seq<char>)
    requires
        !a.contains('\0'),
        !b.contains('\0'),
        tag_key(a, m) == tag_key(b, n),
    ensures
        a == b,
        m == n,
{
    lemma_key_tag(a, m);
    lemma_key_tag(b, n);
}

} // verus!
