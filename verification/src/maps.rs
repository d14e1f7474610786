//! Typed maps over stable memory: texts to stored values, and principals
//! to amounts.

use std::marker::PhantomData;
use vstd::prelude::*;
use vstd::utf8::*;

use crate::idl::{
    candid_bytes, candid_in, decode, encode, nat_from, nat_value, read_nat, scalar_type, Datum,
    Kind, ScalarType,
};
use crate::order::{
    before, begins_with, in_order, lemma_before_irreflexive, lemma_in_order, lemma_prefix_block,
    lemma_prefix_first, lemma_texts_in_order, lists, lists_texts, text_before, texts_in_order,
};
use crate::principal::{Principal, MAX_PRINCIPAL};
use crate::sums::{lemma_sum_take, lemma_total_listed, sum_of, total_of};
use crate::tax::capped;
use crate::stable::{contents, keys_of, StableMap};
use crate::text::{begins, lemma_utf8_concat, lemma_utf8_injective, seen, text_from_utf8, texts};

verus! {

// --- values under text keys ---------------------------------------------------------

/// A value with a stored form.
pub trait Stored: View + Sized {
    /// The value that `bytes` store, if they store one.
    spec fn stored(bytes: Seq<u8>) -> Option<Self::V>;

    /// Whether a value may stand under a key.
    spec fn belongs(v: Self::V, key: Seq<char>) -> bool;

    /// The stored form.
    fn store(&self) -> (r: Vec<u8>)
        ensures
            Self::stored(r@) == Some(self@),
    ;

    /// Read the stored form.
    fn load(bytes: &Vec<u8>) -> (r: Option<Self>)
        ensures
            seen(r) == Self::stored(bytes@),
    ;

    /// Whether the value may stand under a key.
    fn fits_key(&self, key: &str) -> (r: bool)
        ensures
            r == Self::belongs(self@, key@),
    ;
}

/// Whether a map holds readable values under texts.
pub open spec fn readable<T: Stored>(m: Map<Seq<u8>, Seq<u8>>) -> bool {
    &&& m.dom().finite()
    &&& forall|k: Seq<u8>| #[trigger]
        m.contains_key(k) ==> valid_utf8(k) && T::stored(m[k]) is Some && T::belongs(
            T::stored(m[k])->0,
            decode_utf8(k),
        )
}

/// The values of a map by their keys as texts.
pub open spec fn by_text<T: Stored>(m: Map<Seq<u8>, Seq<u8>>) -> Map<Seq<char>, T::V> {
    Map::new(
        |n: Seq<char>| m.contains_key(encode_utf8(n)),
        |n: Seq<char>| T::stored(m[encode_utf8(n)])->0,
    )
}

/// Whether every key of a map is a text and every value can be read, under
/// whichever key it stands.
pub open spec fn decodes<T: Stored>(m: Map<Seq<u8>, Seq<u8>>) -> bool {
    forall|k: Seq<u8>| #[trigger] m.contains_key(k) ==> valid_utf8(k) && T::stored(m[k]) is Some
}

/// A map from texts to values in stable memory.
pub struct TextMap<T: Stored> {
    map: StableMap,
    kind: PhantomData<T>,
}

impl<T: Stored> View for TextMap<T> {
    type V = Map<Seq<char>, T::V>;

    closed spec fn view(&self) -> Map<Seq<char>, T::V> {
        by_text::<T>(contents(self.map))
    }
}

/// What a map gives for a key.
pub open spec fn lookup<K, V>(m: Map<K, V>, k: K) -> Option<V> {
    if m.contains_key(k) {
        Some(m[k])
    } else {
        None
    }
}

/// The values of a map in the order of their keys.
pub open spec fn values_in_order<V>(m: Map<Seq<char>, V>) -> Seq<V> {
    texts_in_order(m.dom()).map_values(|n: Seq<char>| m[n])
}

/// Values by their views.
pub open spec fn views<T: View>(s: Seq<T>) -> Seq<T::V> {
    s.map_values(|x: T| x@)
}

/// The texts with a prefix.
pub open spec fn with_prefix(d: Set<Seq<char>>, prefix: Seq<char>) -> Set<Seq<char>> {
    d.filter(|n: Seq<char>| begins(n, prefix))
}

/// A text whose encoding begins with another's begins with it.
proof fn lemma_bytes_prefix(n: Seq<char>, p: Seq<char>)
    requires
        begins_with(encode_utf8(n), encode_utf8(p)),
    ensures
        begins(n, p),
    decreases p.len(),
{
    if p.len() == 0 {
        assert(n.take(0) =~= p);
    } else {
        let en = encode_utf8(n);
        let ep = encode_utf8(p);
        encode_utf8_first_scalar(p);
        assert(ep.len() >= 1);
        if n.len() == 0 {
            assert(en.len() == 0);
        }
        encode_utf8_first_scalar(n);
        let w = length_of_first_scalar(ep);
        assert forall|i: int| 0 <= i < ep.len() implies en[i] == ep[i] by {
            assert(en.take(ep.len() as int)[i] == ep[i]);
        }
        assert(w <= ep.len());
        assert(decode_first_scalar(en) == decode_first_scalar(ep));
        assert(length_of_first_scalar(en) == w);
        char_u32_cast(n[0], decode_first_scalar(en));
        char_u32_cast(p[0], decode_first_scalar(ep));
        assert(n[0] == p[0]);
        let (n1, p1) = (n.drop_first(), p.drop_first());
        assert(encode_utf8(n1) =~= en.skip(w));
        assert(encode_utf8(p1) =~= ep.skip(w));
        assert(encode_utf8(n1).take(encode_utf8(p1).len() as int) =~= encode_utf8(p1));
        lemma_bytes_prefix(n1, p1);
        assert(n.take(p.len() as int) =~= seq![n[0]] + n1.take(p1.len() as int));
        assert(p =~= seq![p[0]] + p1);
    }
}

/// A text begins with another exactly where its encoding does.
pub proof fn lemma_prefix_bytes(n: Seq<char>, p: Seq<char>)
    ensures
        begins(n, p) <==> begins_with(encode_utf8(n), encode_utf8(p)),
{
    if begins(n, p) {
        assert(n =~= p + n.skip(p.len() as int));
        lemma_utf8_concat(p, n.skip(p.len() as int));
        assert(encode_utf8(n).take(encode_utf8(p).len() as int) =~= encode_utf8(p));
    }
    if begins_with(encode_utf8(n), encode_utf8(p)) {
        lemma_bytes_prefix(n, p);
    }
}

/// Writing one key of a readable map writes one key of its texts.
proof fn lemma_by_text_insert<T: Stored>(m: Map<Seq<u8>, Seq<u8>>, n: Seq<char>, b: Seq<u8>)
    requires
        readable::<T>(m),
        T::stored(b) is Some,
        T::belongs(T::stored(b)->0, n),
    ensures
        readable::<T>(m.insert(encode_utf8(n), b)),
        by_text::<T>(m.insert(encode_utf8(n), b)) == by_text::<T>(m).insert(n, T::stored(b)->0),
{
    let k = encode_utf8(n);
    encode_utf8_valid_utf8(n);
    encode_utf8_decode_utf8(n);
    assert(m.insert(k, b).dom() =~= m.dom().insert(k));
    let left = by_text::<T>(m.insert(k, b));
    let right = by_text::<T>(m).insert(n, T::stored(b)->0);
    assert forall|x: Seq<char>| #[trigger] encode_utf8(x) == k implies x == n by {
        lemma_utf8_injective(x, n);
    }
    assert(left.dom() =~= right.dom());
    assert(left =~= right);
}

/// Removing one key of a readable map removes one key of its texts.
proof fn lemma_by_text_remove<T: Stored>(m: Map<Seq<u8>, Seq<u8>>, n: Seq<char>)
    requires
        readable::<T>(m),
    ensures
        readable::<T>(m.remove(encode_utf8(n))),
        by_text::<T>(m.remove(encode_utf8(n))) == by_text::<T>(m).remove(n),
{
    let k = encode_utf8(n);
    assert(m.remove(k).dom() =~= m.dom().remove(k));
    let left = by_text::<T>(m.remove(k));
    let right = by_text::<T>(m).remove(n);
    assert forall|x: Seq<char>| #[trigger] encode_utf8(x) == k implies x == n by {
        lemma_utf8_injective(x, n);
    }
    assert(left.dom() =~= right.dom());
    assert(left =~= right);
}

/// The texts of a readable map are finitely many.
proof fn lemma_by_text_finite<T: Stored>(m: Map<Seq<u8>, Seq<u8>>)
    requires
        readable::<T>(m),
    ensures
        by_text::<T>(m).dom().finite(),
{
    let d = m.dom().map(|k: Seq<u8>| decode_utf8(k));
    m.dom().lemma_map_finite(|k: Seq<u8>| decode_utf8(k));
    assert forall|n: Seq<char>| by_text::<T>(m).dom().contains(n) implies d.contains(n) by {
        encode_utf8_decode_utf8(n);
        assert(m.dom().contains(encode_utf8(n)));
    }
    vstd::set_lib::lemma_set_subset_finite(d, by_text::<T>(m).dom());
}

impl<T: Stored> TextMap<T> {
    #[verifier::type_invariant]
    spec fn inv(self) -> bool {
        readable::<T>(contents(self.map))
    }

    /// A map over stable memory, None where the memory holds something
    /// that cannot be read as one.
    pub fn from_stable(map: StableMap) -> (r: Option<TextMap<T>>)
        ensures
            r is Some <==> readable::<T>(contents(map)),
            r matches Some(m) ==> m@ == by_text::<T>(contents(map)),
    {
        let entries = map.entries();
        let ghost m = contents(map);
        let mut i: usize = 0;
        while i < entries.len()
            invariant
                i <= entries@.len(),
                m == contents(map),
                lists(keys_of(entries@), m.dom()),
                forall|j: int| 0 <= j < entries@.len() ==> m[(#[trigger] entries@[j]).0@] == entries@[j].1@,
                forall|j: int|
                    0 <= j < i ==> valid_utf8((#[trigger] entries@[j]).0@) && T::stored(
                        entries@[j].1@,
                    ) is Some && T::belongs(
                        T::stored(entries@[j].1@)->0,
                        decode_utf8(entries@[j].0@),
                    ),
            decreases entries.len() - i,
        {
            proof {
                assert(keys_of(entries@)[i as int] == entries@[i as int].0@);
                assert(m.contains_key(entries@[i as int].0@));
            }
            let key = match text_from_utf8(entries[i].0.clone()) {
                Some(key) => key,
                None => {
                    return None;
                },
            };
            let value = match T::load(&entries[i].1) {
                Some(value) => value,
                None => {
                    return None;
                },
            };
            if !value.fits_key(key.as_str()) {
                return None;
            }
            i += 1;
        }
        proof {
            assert forall|k: Seq<u8>| #[trigger] m.contains_key(k) implies valid_utf8(k)
                && T::stored(m[k]) is Some && T::belongs(T::stored(m[k])->0, decode_utf8(k)) by {
                assert(m.dom().contains(k));
                assert(keys_of(entries@).contains(k));
                let j = choose|j: int| 0 <= j < entries@.len() && keys_of(entries@)[j] == k;
                assert(entries@[j].0@ == k);
            }
        }
        Some(TextMap { map, kind: PhantomData })
    }

    /// The map in stable memory.
    pub fn into_stable(self) -> (r: StableMap)
        ensures
            readable::<T>(contents(r)),
            by_text::<T>(contents(r)) == self@,
    {
        proof {
            use_type_invariant(&self);
        }
        let TextMap { map, kind: _ } = self;
        map
    }

    /// The value under `name`.
    pub fn get(&self, name: &str) -> (r: Option<T>)
        ensures
            seen(r) == lookup(self@, name@),
            r matches Some(v) ==> T::belongs(v@, name@),
    {
        proof {
            use_type_invariant(&*self);
            encode_utf8_decode_utf8(name@);
        }
        let key = name.as_bytes_vec();
        match self.map.get(&key) {
            Some(bytes) => T::load(&bytes),
            None => None,
        }
    }

    /// Every value may stand under its key, and there are finitely many.
    pub(crate) fn facts(&self)
        ensures
            self@.dom().finite(),
            forall|n: Seq<char>| #[trigger] self@.contains_key(n) ==> T::belongs(self@[n], n),
    {
        proof {
            use_type_invariant(&*self);
            let m = contents(self.map);
            lemma_by_text_finite::<T>(m);
            assert forall|n: Seq<char>| #[trigger] self@.contains_key(n) implies T::belongs(
                self@[n],
                n,
            ) by {
                assert(m.contains_key(encode_utf8(n)));
                encode_utf8_decode_utf8(n);
            }
        }
    }

    /// Whether there is a value under `name`.
    pub fn contains(&self, name: &str) -> (r: bool)
        ensures
            r == self@.contains_key(name@),
    {
        let key = name.as_bytes_vec();
        self.map.get(&key).is_some()
    }

    /// Store a value under `name`.
    pub fn insert(&mut self, name: &str, value: &T)
        requires
            T::belongs(value@, name@),
        ensures
            final(self)@ == old(self)@.insert(name@, value@),
    {
        proof {
            use_type_invariant(&*self);
        }
        let key = name.as_bytes_vec();
        let bytes = value.store();
        proof {
            lemma_by_text_insert::<T>(contents(self.map), name@, bytes@);
        }
        self.map.insert(key, bytes);
    }

    /// Remove the value under `name`.
    pub fn remove(&mut self, name: &str)
        ensures
            final(self)@ == old(self)@.remove(name@),
    {
        proof {
            use_type_invariant(&*self);
            lemma_by_text_remove::<T>(contents(self.map), name@);
        }
        let key = name.as_bytes_vec();
        self.map.remove(&key);
    }

    /// The texts with a value that begin with `prefix`, in order.
    pub fn keys_with(&self, prefix: &str) -> (r: Vec<String>)
        ensures
            texts(r@) == texts_in_order(with_prefix(self@.dom(), prefix@)),
            lists_texts(texts(r@), with_prefix(self@.dom(), prefix@)),
            self@.dom().finite(),
    {
        proof {
            use_type_invariant(&*self);
            lemma_by_text_finite::<T>(contents(self.map));
        }
        let start = prefix.as_bytes_vec();
        let ghost p = encode_utf8(prefix@);
        let ghost m = contents(self.map);
        let ghost d = with_prefix(self@.dom(), prefix@);
        let entries = self.map.entries_from(start);
        let mut out: Vec<String> = Vec::new();
        let mut i: usize = 0;
        while i < entries.len()
            invariant
                i <= entries@.len(),
                p == encode_utf8(prefix@),
                m == contents(self.map),
                self@ == by_text::<T>(m),
                readable::<T>(m),
                d == with_prefix(self@.dom(), prefix@),
                self@.dom().finite(),
                forall|a: int, b: int|
                    0 <= a < b < entries@.len() ==> before(
                        (#[trigger] entries@[a]).0@,
                        (#[trigger] entries@[b]).0@,
                    ),
                forall|j: int|
                    0 <= j < entries@.len() ==> !before((#[trigger] entries@[j]).0@, p)
                        && m.contains_key(entries@[j].0@),
                forall|k: Seq<u8>| #[trigger]
                    m.contains_key(k) && !before(k, p) ==> exists|j: int|
                        0 <= j < entries@.len() && (#[trigger] entries@[j]).0@ == k,
                out@.len() == i,
                forall|j: int|
                    0 <= j < i ==> encode_utf8((#[trigger] out@[j])@) == entries@[j].0@
                        && d.contains(out@[j]@),
            decreases entries.len() - i,
        {
            let ghost k = entries@[i as int].0@;
            assert(m.contains_key(k));
            let begins_so = starts_with(entries[i].0.as_slice(), prefix.as_bytes());
            if !begins_so {
                proof {
                    assert forall|n: Seq<char>| #[trigger] d.contains(n) implies texts(
                        out@,
                    ).contains(n) by {
                        let e = encode_utf8(n);
                        lemma_prefix_bytes(n, prefix@);
                        lemma_prefix_first(e, p);
                        assert(m.contains_key(e));
                        let j = choose|j: int|
                            0 <= j < entries@.len() && (#[trigger] entries@[j]).0@ == e;
                        if j >= i {
                            if j > i {
                                assert(before(entries@[i as int].0@, entries@[j].0@));
                                lemma_prefix_block(p, k, e);
                            }
                        }
                        lemma_utf8_injective(out@[j]@, n);
                        assert(texts(out@)[j] == n);
                    }
                    lemma_out_lists(out@, entries@, d);
                }
                return out;
            }
            let name = match text_from_utf8(entries[i].0.clone()) {
                Some(name) => name,
                None => {
                    return out;
                },
            };
            proof {
                decode_utf8_encode_utf8(k);
                lemma_prefix_bytes(name@, prefix@);
                assert(self@.dom().contains(name@));
                assert(d.contains(name@));
            }
            out.push(name);
            i += 1;
        }
        proof {
            assert forall|n: Seq<char>| #[trigger] d.contains(n) implies texts(out@).contains(
                n,
            ) by {
                let e = encode_utf8(n);
                lemma_prefix_bytes(n, prefix@);
                lemma_prefix_first(e, p);
                assert(m.contains_key(e));
                let j = choose|j: int| 0 <= j < entries@.len() && (#[trigger] entries@[j]).0@ == e;
                lemma_utf8_injective(out@[j]@, n);
                assert(texts(out@)[j] == n);
            }
            lemma_out_lists(out@, entries@, d);
        }
        out
    }

    /// Every text with a value, in order.
    pub fn keys(&self) -> (r: Vec<String>)
        ensures
            texts(r@) == texts_in_order(self@.dom()),
            lists_texts(texts(r@), self@.dom()),
            self@.dom().finite(),
    {
        let r = self.keys_with("");
        proof {
            reveal_strlit("");
            assert(with_prefix(self@.dom(), ""@) =~= self@.dom()) by {
                assert forall|n: Seq<char>| begins(n, ""@) by {
                    assert(n.take(0) =~= ""@);
                }
            }
        }
        r
    }

    /// Every value, in the order of the texts.
    pub fn values(&self) -> (r: Vec<T>)
        ensures
            views(r@) == values_in_order(self@),
            self@.dom().finite(),
            r@.len() == texts_in_order(self@.dom()).len(),
    {
        let keys = self.keys();
        let ghost names = texts_in_order(self@.dom());
        let mut out: Vec<T> = Vec::new();
        let mut i: usize = 0;
        while i < keys.len()
            invariant
                i <= keys@.len(),
                names == texts_in_order(self@.dom()),
                texts(keys@) == names,
                lists_texts(names, self@.dom()),
                out@.len() == i,
                forall|j: int| 0 <= j < i ==> (#[trigger] out@[j])@ == self@[names[j]],
            decreases keys.len() - i,
        {
            assert(names[i as int] == keys@[i as int]@);
            assert(self@.dom().contains(names[i as int]));
            match self.get(keys[i].as_str()) {
                Some(v) => {
                    out.push(v);
                },
                None => {},
            }
            i += 1;
        }
        assert(views(out@) =~= values_in_order(self@));
        out
    }
}

/// The texts of a map in order and the values under them, None where a key
/// is no text or a value cannot be read.
pub fn read_all<T: Stored>(map: &StableMap) -> (r: Option<(Vec<String>, Vec<T>)>)
    ensures
        r is Some <==> decodes::<T>(contents(*map)),
        r matches Some((names, values)) ==> {
            let m = by_text::<T>(contents(*map));
            &&& texts(names@) == texts_in_order(m.dom())
            &&& lists_texts(texts(names@), m.dom())
            &&& views(values@) == values_in_order(m)
        },
{
    let entries = map.entries();
    let ghost m = contents(*map);
    let ghost d = by_text::<T>(m).dom();
    let mut names: Vec<String> = Vec::new();
    let mut values: Vec<T> = Vec::new();
    let mut i: usize = 0;
    while i < entries.len()
        invariant
            i <= entries@.len(),
            m == contents(*map),
            d == by_text::<T>(m).dom(),
            lists(keys_of(entries@), m.dom()),
            forall|j: int|
                0 <= j < entries@.len() ==> m[(#[trigger] entries@[j]).0@] == entries@[j].1@,
            names@.len() == i,
            values@.len() == i,
            forall|j: int|
                0 <= j < i ==> valid_utf8((#[trigger] entries@[j]).0@) && T::stored(
                    entries@[j].1@,
                ) is Some,
            forall|j: int|
                0 <= j < i ==> encode_utf8((#[trigger] names@[j])@) == entries@[j].0@ && d.contains(
                    names@[j]@,
                ),
            forall|j: int|
                0 <= j < i ==> Some((#[trigger] values@[j])@) == T::stored(entries@[j].1@),
        decreases entries.len() - i,
    {
        proof {
            assert(keys_of(entries@)[i as int] == entries@[i as int].0@);
            assert(m.dom().contains(entries@[i as int].0@));
            assert(m.contains_key(entries@[i as int].0@));
        }
        let name = match text_from_utf8(entries[i].0.clone()) {
            Some(name) => name,
            None => {
                return None;
            },
        };
        let value = match T::load(&entries[i].1) {
            Some(value) => value,
            None => {
                return None;
            },
        };
        proof {
            decode_utf8_encode_utf8(entries@[i as int].0@);
            assert(d.contains(name@));
        }
        names.push(name);
        values.push(value);
        i += 1;
    }
    proof {
        let keys = keys_of(entries@);
        assert forall|k: Seq<u8>| #[trigger] m.contains_key(k) implies valid_utf8(k) && T::stored(
            m[k],
        ) is Some by {
            assert(m.dom().contains(k));
            assert(keys.contains(k));
            let j = choose|j: int| 0 <= j < entries@.len() && keys[j] == k;
            assert(entries@[j].0@ == k);
        }
        assert forall|n: Seq<char>| #[trigger] d.contains(n) implies texts(names@).contains(n) by {
            let e = encode_utf8(n);
            assert(m.dom().contains(e));
            assert(keys.contains(e));
            let j = choose|j: int| 0 <= j < entries@.len() && keys[j] == e;
            assert(entries@[j].0@ == e);
            lemma_utf8_injective(names@[j]@, n);
            assert(texts(names@)[j] == n);
        }
        assert forall|a: int, b: int| 0 <= a < b < entries@.len() implies before(
            (#[trigger] entries@[a]).0@,
            (#[trigger] entries@[b]).0@,
        ) by {
            assert(keys[a] == entries@[a].0@ && keys[b] == entries@[b].0@);
        }
        lemma_out_lists(names@, entries@, d);
        assert forall|j: int| 0 <= j < values@.len() implies views(values@)[j] == values_in_order(
            by_text::<T>(m),
        )[j] by {
            assert(texts(names@)[j] == names@[j]@);
            assert(entries@[j].0@ == encode_utf8(names@[j]@));
        }
        assert(views(values@) =~= values_in_order(by_text::<T>(m)));
    }
    Some((names, values))
}

/// Names read from ascending keys, all of a set and covering it, list it.
proof fn lemma_out_lists(out: Seq<String>, entries: Seq<(Vec<u8>, Vec<u8>)>, d: Set<Seq<char>>)
    requires
        out.len() <= entries.len(),
        forall|a: int, b: int|
            0 <= a < b < entries.len() ==> before(
                (#[trigger] entries[a]).0@,
                (#[trigger] entries[b]).0@,
            ),
        forall|j: int|
            0 <= j < out.len() ==> encode_utf8((#[trigger] out[j])@) == entries[j].0@ && d.contains(
                out[j]@,
            ),
        forall|n: Seq<char>| #[trigger] d.contains(n) ==> texts(out).contains(n),
    ensures
        lists_texts(texts(out), d),
        texts_in_order(d) == texts(out),
{
    let s = texts(out);
    assert forall|i: int, j: int| 0 <= i < j < s.len() implies text_before(
        #[trigger] s[i],
        #[trigger] s[j],
    ) by {
        assert(s[i] == out[i]@ && s[j] == out[j]@);
        assert(before(entries[i].0@, entries[j].0@));
    }
    assert forall|i: int| 0 <= i < s.len() implies d.contains(#[trigger] s[i]) by {
        assert(s[i] == out[i]@);
    }
    lemma_texts_in_order(s, d);
}

/// Whether a byte string begins with another.
pub fn starts_with(s: &[u8], p: &[u8]) -> (r: bool)
    ensures
        r == begins_with(s@, p@),
{
    if p.len() > s.len() {
        return false;
    }
    let mut i: usize = 0;
    while i < p.len()
        invariant
            p@.len() <= s@.len(),
            i <= p@.len(),
            forall|j: int| 0 <= j < i ==> s@[j] == p@[j],
        decreases p.len() - i,
    {
        if s[i] != p[i] {
            assert(s@.take(p@.len() as int)[i as int] != p@[i as int]);
            return false;
        }
        i += 1;
    }
    assert(s@.take(p@.len() as int) =~= p@);
    true
}

// --- marks ------------------------------------------------------------------------

/// A value that says nothing: being there is what counts.
pub struct Mark;

impl View for Mark {
    type V = ();

    open spec fn view(&self) -> () {
        ()
    }
}

impl Stored for Mark {
    open spec fn stored(bytes: Seq<u8>) -> Option<()> {
        Some(())
    }

    open spec fn belongs(v: (), key: Seq<char>) -> bool {
        true
    }

    /// A mark is stored as no bytes at all.
    fn store(&self) -> (r: Vec<u8>)
        ensures
            r@ == Seq::<u8>::empty(),
    {
        Vec::new()
    }

    fn load(bytes: &Vec<u8>) -> (r: Option<Mark>) {
        Some(Mark)
    }

    fn fits_key(&self, key: &str) -> (r: bool) {
        true
    }
}

// --- principals -------------------------------------------------------------------

/// Whether a map is keyed by principals.
pub open spec fn keyed_by_principals(m: Map<Seq<u8>, Seq<u8>>) -> bool {
    &&& m.dom().finite()
    &&& forall|k: Seq<u8>| #[trigger] m.contains_key(k) ==> k.len() <= MAX_PRINCIPAL
}

/// A set of principals in stable memory.
pub struct PrincipalSet {
    map: StableMap,
}

impl View for PrincipalSet {
    type V = Set<Seq<u8>>;

    closed spec fn view(&self) -> Set<Seq<u8>> {
        contents(self.map).dom()
    }
}

/// Principals by their views.
pub open spec fn principals(s: Seq<Principal>) -> Seq<Seq<u8>> {
    s.map_values(|p: Principal| p@)
}

impl PrincipalSet {
    #[verifier::type_invariant]
    spec fn inv(self) -> bool {
        keyed_by_principals(contents(self.map))
    }

    /// A set over stable memory, None where the memory holds something
    /// else.
    pub fn from_stable(map: StableMap) -> (r: Option<PrincipalSet>)
        ensures
            r is Some <==> keyed_by_principals(contents(map)),
            r matches Some(s) ==> s@ == contents(map).dom(),
    {
        if fits_principals(&map) {
            Some(PrincipalSet { map })
        } else {
            None
        }
    }

    /// Whether `p` is in the set.
    pub fn contains(&self, p: &Principal) -> (r: bool)
        ensures
            r == self@.contains(p@),
    {
        let key = p.to_vec();
        self.map.get(&key).is_some()
    }

    /// Add `p`.
    pub fn insert(&mut self, p: &Principal)
        ensures
            final(self)@ == old(self)@.insert(p@),
    {
        p.bounded();
        proof {
            use_type_invariant(&*self);
        }
        let key = p.to_vec();
        let none: Vec<u8> = Vec::new();
        proof {
            let m = contents(self.map);
            assert(m.insert(p@, none@).dom() =~= m.dom().insert(p@));
        }
        self.map.insert(key, none);
    }

    /// Remove `p`.
    pub fn remove(&mut self, p: &Principal)
        ensures
            final(self)@ == old(self)@.remove(p@),
    {
        proof {
            use_type_invariant(&*self);
            let m = contents(self.map);
            assert(m.remove(p@).dom() =~= m.dom().remove(p@));
        }
        let key = p.to_vec();
        self.map.remove(&key);
    }

    /// Every member, in the order of their bytes.
    pub fn list(&self) -> (r: Vec<Principal>)
        ensures
            principals(r@) == in_order(self@),
            lists(principals(r@), self@),
    {
        proof {
            use_type_invariant(&*self);
        }
        let entries = self.map.entries();
        let ghost keys = keys_of(entries@);
        let mut out: Vec<Principal> = Vec::new();
        let mut i: usize = 0;
        while i < entries.len()
            invariant
                i <= entries@.len(),
                keys == keys_of(entries@),
                lists(keys, self@),
                self@ == contents(self.map).dom(),
                keyed_by_principals(contents(self.map)),
                principals(out@) == keys.take(i as int),
            decreases entries.len() - i,
        {
            let ghost before = out@;
            proof {
                assert(keys[i as int] == entries@[i as int].0@);
                assert(self@.contains(keys[i as int]));
                assert(contents(self.map).contains_key(keys[i as int]));
            }
            out.push(Principal::from_slice(entries[i].0.as_slice()));
            assert(principals(out@) =~= principals(before).push(keys[i as int]));
            assert(keys.take(i + 1) =~= keys.take(i as int).push(keys[i as int]));
            i += 1;
        }
        proof {
            assert(keys.take(i as int) =~= keys);
            lemma_in_order(keys, self@);
        }
        out
    }
}

/// Whether every key of a map is short enough for a principal.
fn fits_principals(map: &StableMap) -> (r: bool)
    ensures
        r == keyed_by_principals(contents(*map)),
{
    let entries = map.entries();
    let ghost keys = keys_of(entries@);
    let mut i: usize = 0;
    while i < entries.len()
        invariant
            i <= entries@.len(),
            keys == keys_of(entries@),
            lists(keys, contents(*map).dom()),
            forall|j: int| 0 <= j < i ==> (#[trigger] keys[j]).len() <= MAX_PRINCIPAL,
        decreases entries.len() - i,
    {
        assert(keys[i as int] == entries@[i as int].0@);
        assert(contents(*map).dom().contains(keys[i as int]));
        if entries[i].0.len() > MAX_PRINCIPAL {
            assert(contents(*map).contains_key(keys[i as int]));
            return false;
        }
        i += 1;
    }
    proof {
        assert forall|k: Seq<u8>| #[trigger] contents(*map).contains_key(k) implies k.len()
            <= MAX_PRINCIPAL by {
            assert(contents(*map).dom().contains(k));
            assert(keys.contains(k));
        }
    }
    true
}

// --- amounts ----------------------------------------------------------------------

/// The amount stored in `bytes`, if they store one.
pub open spec fn amount_in(bytes: Seq<u8>) -> Option<u128> {
    match candid_in(bytes, Kind::Nat) {
        Some(d) => nat_from(d),
        None => None,
    }
}

/// The bytes that an amount is stored as: a number in candid.
pub open spec fn amount_bytes(n: u128) -> Seq<u8> {
    candid_bytes(Datum::Nat(n as nat), Kind::Nat)
}

/// Store an amount.
pub fn store_amount(n: u128) -> (r: Vec<u8>)
    ensures
        r@ == amount_bytes(n),
        amount_in(r@) == Some(n),
{
    encode(nat_value(n), scalar_type(ScalarType::Nat))
}

/// Read an amount.
pub fn load_amount(bytes: &Vec<u8>) -> (r: Option<u128>)
    ensures
        r == amount_in(bytes@),
{
    match decode(bytes, scalar_type(ScalarType::Nat)) {
        Some(v) => read_nat(&v),
        None => None,
    }
}

/// Whether a map holds amounts under principals.
pub open spec fn holds_amounts(m: Map<Seq<u8>, Seq<u8>>) -> bool {
    &&& keyed_by_principals(m)
    &&& forall|k: Seq<u8>| #[trigger] m.contains_key(k) ==> amount_in(m[k]) is Some
}

/// The amounts of a map.
pub open spec fn amounts_of(m: Map<Seq<u8>, Seq<u8>>) -> Map<Seq<u8>, u128> {
    Map::new(|k: Seq<u8>| m.contains_key(k), |k: Seq<u8>| amount_in(m[k])->0)
}

/// What is owed to a principal.
pub open spec fn owed(m: Map<Seq<u8>, u128>, p: Seq<u8>) -> u128 {
    if m.contains_key(p) {
        m[p]
    } else {
        0
    }
}

/// The amounts with that of one principal set; zero is no entry.
pub open spec fn with_owed(m: Map<Seq<u8>, u128>, p: Seq<u8>, amount: u128) -> Map<Seq<u8>, u128> {
    if amount == 0 {
        m.remove(p)
    } else {
        m.insert(p, amount)
    }
}

/// Amounts as numbers without bound.
pub open spec fn as_nats<K>(m: Map<K, u128>) -> Map<K, nat> {
    m.map_values(|v: u128| v as nat)
}

/// Amounts under principals in stable memory.
pub struct AmountMap {
    map: StableMap,
}

impl View for AmountMap {
    type V = Map<Seq<u8>, u128>;

    closed spec fn view(&self) -> Map<Seq<u8>, u128> {
        amounts_of(contents(self.map))
    }
}

impl AmountMap {
    #[verifier::type_invariant]
    spec fn inv(self) -> bool {
        holds_amounts(contents(self.map))
    }

    /// Amounts over stable memory, None where the memory holds something
    /// else.
    pub fn from_stable(map: StableMap) -> (r: Option<AmountMap>)
        ensures
            r is Some <==> holds_amounts(contents(map)),
            r matches Some(a) ==> a@ == amounts_of(contents(map)),
    {
        if !fits_principals(&map) {
            return None;
        }
        let entries = map.entries();
        let ghost keys = keys_of(entries@);
        let ghost m = contents(map);
        let mut i: usize = 0;
        while i < entries.len()
            invariant
                i <= entries@.len(),
                m == contents(map),
                keys == keys_of(entries@),
                lists(keys, m.dom()),
                forall|j: int|
                    0 <= j < entries@.len() ==> m[(#[trigger] entries@[j]).0@] == entries@[j].1@,
                forall|j: int| 0 <= j < i ==> amount_in(m[#[trigger] keys[j]]) is Some,
            decreases entries.len() - i,
        {
            assert(keys[i as int] == entries@[i as int].0@);
            assert(m.dom().contains(keys[i as int]));
            if load_amount(&entries[i].1).is_none() {
                assert(m.contains_key(keys[i as int]));
                return None;
            }
            i += 1;
        }
        proof {
            assert forall|k: Seq<u8>| #[trigger] m.contains_key(k) implies amount_in(
                m[k],
            ) is Some by {
                assert(m.dom().contains(k));
                assert(keys.contains(k));
            }
        }
        Some(AmountMap { map })
    }

    /// The amount of `p`, zero where there is none.
    pub fn get(&self, p: &Principal) -> (r: u128)
        ensures
            r == owed(self@, p@),
    {
        proof {
            use_type_invariant(&*self);
        }
        let key = p.to_vec();
        match self.map.get(&key) {
            Some(bytes) => match load_amount(&bytes) {
                Some(n) => n,
                None => 0,
            },
            None => 0,
        }
    }

    /// Set the amount of `p`.
    pub fn set(&mut self, p: &Principal, amount: u128)
        ensures
            final(self)@ == with_owed(old(self)@, p@, amount),
    {
        p.bounded();
        proof {
            use_type_invariant(&*self);
        }
        let ghost m = contents(self.map);
        let key = p.to_vec();
        if amount == 0 {
            proof {
                assert(m.remove(p@).dom() =~= m.dom().remove(p@));
                assert(amounts_of(m.remove(p@)) =~= amounts_of(m).remove(p@));
            }
            self.map.remove(&key);
        } else {
            let bytes = store_amount(amount);
            proof {
                assert(m.insert(p@, bytes@).dom() =~= m.dom().insert(p@));
                assert(amounts_of(m.insert(p@, bytes@)) =~= amounts_of(m).insert(p@, amount));
            }
            self.map.insert(key, bytes);
        }
    }

    /// The sum of all amounts, or the largest amount where it is more.
    pub fn total(&self) -> (r: u128)
        ensures
            r == capped(total_of(as_nats(self@)) as int),
            self@.dom().finite(),
    {
        proof {
            use_type_invariant(&*self);
        }
        let entries = self.map.entries();
        let ghost keys = keys_of(entries@);
        let ghost m = contents(self.map);
        let ghost n = as_nats(self@);
        let ghost amounts = keys.map_values(|k: Seq<u8>| n[k]);
        proof {
            assert(n.dom() =~= m.dom());
            assert(self@.dom() =~= m.dom());
            assert forall|i: int, j: int| 0 <= i < keys.len() && 0 <= j < keys.len() && i
                != j implies keys[i] != keys[j] by {
                if i < j {
                    assert(before(keys[i], keys[j]));
                    lemma_before_irreflexive(keys[i]);
                } else {
                    assert(before(keys[j], keys[i]));
                    lemma_before_irreflexive(keys[i]);
                }
            }
            assert forall|k: Seq<u8>| #[trigger] n.contains_key(k) implies keys.contains(k) by {
                assert(m.dom().contains(k));
            }
            assert forall|i: int| 0 <= i < keys.len() implies n.contains_key(#[trigger] keys[i]) by {
                assert(m.dom().contains(keys[i]));
            }
            lemma_total_listed(keys, n);
        }
        let mut acc: u128 = 0;
        let mut i: usize = 0;
        assert(amounts.take(0) =~= Seq::<nat>::empty());
        while i < entries.len()
            invariant
                i <= entries@.len(),
                m == contents(self.map),
                holds_amounts(m),
                self@ == amounts_of(m),
                n == as_nats(self@),
                keys == keys_of(entries@),
                lists(keys, m.dom()),
                amounts == keys.map_values(|k: Seq<u8>| n[k]),
                forall|j: int|
                    0 <= j < entries@.len() ==> m[(#[trigger] entries@[j]).0@] == entries@[j].1@,
                acc == capped(sum_of(amounts.take(i as int)) as int),
            decreases entries.len() - i,
        {
            let amount: u128 = match load_amount(&entries[i].1) {
                Some(a) => a,
                None => 0,
            };
            proof {
                assert(keys[i as int] == entries@[i as int].0@);
                assert(m.dom().contains(keys[i as int]));
                assert(m.contains_key(keys[i as int]));
                assert(n[keys[i as int]] == amount);
                assert(amounts[i as int] == amount);
                lemma_sum_take(amounts, i as int);
            }
            acc = acc.saturating_add(amount);
            i += 1;
        }
        assert(amounts.take(i as int) =~= amounts);
        acc
    }
}

} // verus!
