//! The order of byte strings and of texts by their UTF-8 bytes, and the
//! listing of a set in that order.

use vstd::prelude::*;
use vstd::utf8::*;

use crate::text::lemma_utf8_injective;

verus! {

/// Byte strings in lexicographic order.
pub open spec fn before(a: Seq<u8>, b: Seq<u8>) -> bool
    decreases a.len(),
{
    if b.len() == 0 {
        false
    } else if a.len() == 0 {
        true
    } else if a[0] != b[0] {
        a[0] < b[0]
    } else {
        before(a.drop_first(), b.drop_first())
    }
}

/// Texts in the order of their UTF-8 bytes.
pub open spec fn text_before(a: Seq<char>, b: Seq<char>) -> bool {
    before(encode_utf8(a), encode_utf8(b))
}

/// Nothing comes before itself.
pub proof fn lemma_before_irreflexive(a: Seq<u8>)
    ensures
        !before(a, a),
    decreases a.len(),
{
    if a.len() > 0 {
        lemma_before_irreflexive(a.drop_first());
    }
}

/// Of two different byte strings exactly one comes first.
pub proof fn lemma_before_total(a: Seq<u8>, b: Seq<u8>)
    ensures
        a != b ==> (before(a, b) <==> !before(b, a)),
        a == b || before(a, b) || before(b, a),
    decreases a.len(),
{
    if a.len() == 0 && b.len() == 0 {
        assert(a =~= b);
    } else if a.len() > 0 && b.len() > 0 {
        lemma_before_total(a.drop_first(), b.drop_first());
        if a[0] == b[0] && a.drop_first() == b.drop_first() {
            assert(a =~= seq![a[0]] + a.drop_first());
            assert(b =~= seq![b[0]] + b.drop_first());
        }
    }
}

/// The order is transitive.
pub proof fn lemma_before_transitive(a: Seq<u8>, b: Seq<u8>, c: Seq<u8>)
    requires
        before(a, b),
        before(b, c),
    ensures
        before(a, c),
    decreases a.len(),
{
    if a.len() > 0 && b.len() > 0 && c.len() > 0 && a[0] == b[0] && b[0] == c[0] {
        lemma_before_transitive(a.drop_first(), b.drop_first(), c.drop_first());
    }
}

/// A common prefix does not change the order.
pub proof fn lemma_before_prefix(p: Seq<u8>, a: Seq<u8>, b: Seq<u8>)
    ensures
        before(p + a, p + b) == before(a, b),
    decreases p.len(),
{
    if p.len() == 0 {
        assert(p + a =~= a);
        assert(p + b =~= b);
    } else {
        assert((p + a).drop_first() =~= p.drop_first() + a);
        assert((p + b).drop_first() =~= p.drop_first() + b);
        lemma_before_prefix(p.drop_first(), a, b);
    }
}

/// Whether a byte string begins with another.
pub open spec fn begins_with(s: Seq<u8>, p: Seq<u8>) -> bool {
    p.len() <= s.len() && s.take(p.len() as int) == p
}

/// A byte string does not come before its prefix.
pub proof fn lemma_prefix_first(s: Seq<u8>, p: Seq<u8>)
    requires
        begins_with(s, p),
    ensures
        !before(s, p),
    decreases p.len(),
{
    if p.len() > 0 {
        assert(s.take(p.len() as int)[0] == s[0]);
        assert(s.drop_first().take(p.drop_first().len() as int) =~= s.take(
            p.len() as int,
        ).drop_first());
        lemma_prefix_first(s.drop_first(), p.drop_first());
    }
}

/// The byte strings with a common prefix stand next to each other: what
/// lies between the prefix and one of them has the prefix too.
pub proof fn lemma_prefix_block(p: Seq<u8>, a: Seq<u8>, b: Seq<u8>)
    requires
        !before(a, p),
        before(a, b),
        begins_with(b, p),
    ensures
        begins_with(a, p),
    decreases p.len(),
{
    if p.len() > 0 {
        assert(b.take(p.len() as int)[0] == b[0]);
        assert(a.len() > 0);
        assert(a[0] == p[0]);
        assert(b.drop_first().take(p.drop_first().len() as int) =~= b.take(
            p.len() as int,
        ).drop_first());
        lemma_prefix_block(p.drop_first(), a.drop_first(), b.drop_first());
        assert(a.take(p.len() as int) =~= seq![a[0]] + a.drop_first().take(
            p.drop_first().len() as int,
        ));
        assert(p =~= seq![p[0]] + p.drop_first());
    } else {
        assert(a.take(0) =~= p);
    }
}

// --- listings ------------------------------------------------------------------

/// Byte strings in strictly ascending order.
pub open spec fn ascending(s: Seq<Seq<u8>>) -> bool {
    forall|i: int, j: int| 0 <= i < j < s.len() ==> before(#[trigger] s[i], #[trigger] s[j])
}

/// Whether `s` lists exactly the members of `d`, in order.
pub open spec fn lists(s: Seq<Seq<u8>>, d: Set<Seq<u8>>) -> bool {
    &&& ascending(s)
    &&& forall|i: int| 0 <= i < s.len() ==> d.contains(#[trigger] s[i])
    &&& forall|k: Seq<u8>| #[trigger] d.contains(k) ==> s.contains(k)
}

/// The members of a finite set of byte strings in order.
pub open spec fn in_order(d: Set<Seq<u8>>) -> Seq<Seq<u8>> {
    choose|s: Seq<Seq<u8>>| lists(s, d)
}

/// A set has one listing.
pub proof fn lemma_listing_unique(s: Seq<Seq<u8>>, t: Seq<Seq<u8>>, d: Set<Seq<u8>>)
    requires
        lists(s, d),
        lists(t, d),
    ensures
        s == t,
    decreases s.len(),
{
    if s.len() == 0 {
        if t.len() > 0 {
            assert(d.contains(t[0]));
            assert(s.contains(t[0]));
        }
        assert(s =~= t);
    } else {
        assert(d.contains(s[0]));
        assert(t.contains(s[0]));
        let i = choose|i: int| 0 <= i < t.len() && t[i] == s[0];
        assert(d.contains(t[0]));
        let j = choose|j: int| 0 <= j < s.len() && s[j] == t[0];
        lemma_before_total(s[0], t[0]);
        if s[0] != t[0] {
            assert(before(t[0], t[i]));
            assert(before(s[0], s[j]));
        }
        let e = d.remove(s[0]);
        let s1 = s.drop_first();
        let t1 = t.drop_first();
        assert(lists(s1, e)) by {
            assert forall|k: Seq<u8>| #[trigger] e.contains(k) implies s1.contains(k) by {
                assert(s.contains(k));
                let m = choose|m: int| 0 <= m < s.len() && s[m] == k;
                assert(s1[m - 1] == k);
            }
            assert forall|m: int| 0 <= m < s1.len() implies e.contains(#[trigger] s1[m]) by {
                assert(s1[m] == s[m + 1]);
                assert(before(s[0], s[m + 1]));
                lemma_before_irreflexive(s[0]);
            }
        }
        assert(lists(t1, e)) by {
            assert forall|k: Seq<u8>| #[trigger] e.contains(k) implies t1.contains(k) by {
                assert(t.contains(k));
                let m = choose|m: int| 0 <= m < t.len() && t[m] == k;
                assert(t1[m - 1] == k);
            }
            assert forall|m: int| 0 <= m < t1.len() implies e.contains(#[trigger] t1[m]) by {
                assert(t1[m] == t[m + 1]);
                assert(before(t[0], t[m + 1]));
                lemma_before_irreflexive(t[0]);
            }
        }
        lemma_listing_unique(s1, t1, e);
        assert(s =~= seq![s[0]] + s1);
        assert(t =~= seq![t[0]] + t1);
    }
}

/// A listing is the listing.
pub proof fn lemma_in_order(s: Seq<Seq<u8>>, d: Set<Seq<u8>>)
    requires
        lists(s, d),
    ensures
        in_order(d) == s,
{
    lemma_listing_unique(in_order(d), s, d);
}

/// Whether `s` lists exactly the texts of `d`, in order.
pub open spec fn lists_texts(s: Seq<Seq<char>>, d: Set<Seq<char>>) -> bool {
    &&& forall|i: int, j: int|
        0 <= i < j < s.len() ==> text_before(#[trigger] s[i], #[trigger] s[j])
    &&& forall|i: int| 0 <= i < s.len() ==> d.contains(#[trigger] s[i])
    &&& forall|k: Seq<char>| #[trigger] d.contains(k) ==> s.contains(k)
}

/// The texts of a finite set in order.
pub open spec fn texts_in_order(d: Set<Seq<char>>) -> Seq<Seq<char>> {
    choose|s: Seq<Seq<char>>| lists_texts(s, d)
}

/// A set of texts has one listing.
pub proof fn lemma_texts_in_order(s: Seq<Seq<char>>, d: Set<Seq<char>>)
    requires
        lists_texts(s, d),
    ensures
        texts_in_order(d) == s,
{
    let t = texts_in_order(d);
    assert(lists_texts(t, d));
    let enc = |x: Seq<char>| encode_utf8(x);
    let e = Set::new(|k: Seq<u8>| exists|x: Seq<char>| #[trigger] d.contains(x) && k == encode_utf8(x));
    assert forall|u: Seq<Seq<char>>| #[trigger] lists_texts(u, d) implies lists(
        u.map_values(enc),
        e,
    ) by {
        let v = u.map_values(enc);
        assert forall|k: Seq<u8>| #[trigger] e.contains(k) implies v.contains(k) by {
            let x = choose|x: Seq<char>| #[trigger] d.contains(x) && k == encode_utf8(x);
            assert(u.contains(x));
            let m = choose|m: int| 0 <= m < u.len() && u[m] == x;
            assert(v[m] == k);
        }
        assert forall|i: int| 0 <= i < v.len() implies e.contains(#[trigger] v[i]) by {
            assert(d.contains(u[i]));
        }
        assert forall|i: int, j: int| 0 <= i < j < v.len() implies before(
            #[trigger] v[i],
            #[trigger] v[j],
        ) by {
            assert(text_before(u[i], u[j]));
        }
    }
    lemma_listing_unique(s.map_values(enc), t.map_values(enc), e);
    assert forall|i: int| 0 <= i < s.len() implies s[i] == t[i] by {
        assert(s.map_values(enc)[i] == t.map_values(enc)[i]);
        lemma_utf8_injective(s[i], t[i]);
    }
    assert(s.map_values(enc).len() == t.map_values(enc).len());
    assert(s =~= t);
}

/// Whether `a` comes before `b`.
pub fn bytes_before(a: &[u8], b: &[u8]) -> (r: bool)
    ensures
        r == before(a@, b@),
{
    let mut i: usize = 0;
    proof {
        assert(a@.skip(0) =~= a@);
        assert(b@.skip(0) =~= b@);
    }
    while i < a.len() && i < b.len() && a[i] == b[i]
        invariant
            i <= a@.len(),
            i <= b@.len(),
            before(a@, b@) == before(a@.skip(i as int), b@.skip(i as int)),
        decreases a.len() - i,
    {
        assert(a@.skip(i as int).drop_first() =~= a@.skip(i + 1));
        assert(b@.skip(i as int).drop_first() =~= b@.skip(i + 1));
        i += 1;
    }
    if i >= b.len() {
        false
    } else if i >= a.len() {
        true
    } else {
        a[i] < b[i]
    }
}

/// Whether `a` comes before `b` by their UTF-8 bytes.
pub fn text_comes_before(a: &str, b: &str) -> (r: bool)
    ensures
        r == text_before(a@, b@),
{
    bytes_before(a.as_bytes(), b.as_bytes())
}

/// A listing with one more text in its place.
spec fn put_text(s: Seq<Seq<char>>, x: Seq<char>) -> Seq<Seq<char>>
    decreases s.len(),
{
    if s.len() > 0 && text_before(x, s.last()) {
        put_text(s.drop_last(), x).push(s.last())
    } else {
        s.push(x)
    }
}

proof fn lemma_put_text(s: Seq<Seq<char>>, d: Set<Seq<char>>, x: Seq<char>)
    requires
        lists_texts(s, d),
        !d.contains(x),
    ensures
        lists_texts(put_text(s, x), d.insert(x)),
    decreases s.len(),
{
    let r = put_text(s, x);
    let e = d.insert(x);
    if s.len() > 0 && text_before(x, s.last()) {
        let last = s.last();
        let rest = s.drop_last();
        let inner = d.remove(last);
        assert(s[s.len() - 1] == last);
        assert forall|i: int| 0 <= i < rest.len() implies inner.contains(#[trigger] rest[i]) by {
            assert(rest[i] == s[i]);
            assert(text_before(s[i], s[s.len() - 1]));
            lemma_before_irreflexive(encode_utf8(last));
        }
        assert forall|k: Seq<char>| #[trigger] inner.contains(k) implies rest.contains(k) by {
            assert(s.contains(k));
            let i = choose|i: int| 0 <= i < s.len() && s[i] == k;
            assert(rest[i] == k);
        }
        assert forall|i: int, j: int| 0 <= i < j < rest.len() implies text_before(
            #[trigger] rest[i],
            #[trigger] rest[j],
        ) by {
            assert(rest[i] == s[i] && rest[j] == s[j]);
        }
        lemma_put_text(rest, inner, x);
        let p = put_text(rest, x);
        assert forall|i: int, j: int| 0 <= i < j < r.len() implies text_before(
            #[trigger] r[i],
            #[trigger] r[j],
        ) by {
            assert(r[i] == p[i]);
            if j < p.len() {
                assert(r[j] == p[j]);
            } else {
                assert(inner.insert(x).contains(p[i]));
                if p[i] != x {
                    assert(rest.contains(p[i]));
                    let k = choose|k: int| 0 <= k < rest.len() && rest[k] == p[i];
                    assert(text_before(s[k], s[s.len() - 1]));
                }
            }
        }
        assert forall|i: int| 0 <= i < r.len() implies e.contains(#[trigger] r[i]) by {
            if i < p.len() {
                assert(r[i] == p[i]);
                assert(inner.insert(x).contains(p[i]));
            } else {
                assert(d.contains(s[s.len() - 1]));
            }
        }
        assert forall|k: Seq<char>| #[trigger] e.contains(k) implies r.contains(k) by {
            if k == last {
                assert(r[r.len() - 1] == k);
            } else {
                assert(inner.insert(x).contains(k));
                assert(p.contains(k));
                let i = choose|i: int| 0 <= i < p.len() && p[i] == k;
                assert(r[i] == k);
            }
        }
    } else {
        assert forall|i: int, j: int| 0 <= i < j < r.len() implies text_before(
            #[trigger] r[i],
            #[trigger] r[j],
        ) by {
            assert(r[i] == s[i]);
            if j < s.len() {
                assert(r[j] == s[j]);
            } else {
                let last = s[s.len() - 1];
                assert(d.contains(last));
                lemma_before_total(encode_utf8(x), encode_utf8(last));
                if encode_utf8(x) == encode_utf8(last) {
                    lemma_utf8_injective(x, last);
                }
                assert(text_before(last, x));
                if i < s.len() - 1 {
                    assert(text_before(s[i], last));
                    lemma_before_transitive(
                        encode_utf8(s[i]),
                        encode_utf8(last),
                        encode_utf8(x),
                    );
                }
            }
        }
        assert forall|k: Seq<char>| #[trigger] e.contains(k) implies r.contains(k) by {
            if k == x {
                assert(r[r.len() - 1] == k);
            } else {
                assert(s.contains(k));
                let i = choose|i: int| 0 <= i < s.len() && s[i] == k;
                assert(r[i] == k);
            }
        }
    }
}

/// Every finite set of texts has a listing.
pub proof fn lemma_texts_listed(d: Set<Seq<char>>)
    requires
        d.finite(),
    ensures
        lists_texts(texts_in_order(d), d),
{
    let s = lemma_some_listing(d);
    assert(lists_texts(s, d));
}

proof fn lemma_some_listing(d: Set<Seq<char>>) -> (s: Seq<Seq<char>>)
    requires
        d.finite(),
    ensures
        lists_texts(s, d),
    decreases d.len(),
{
    if d.len() == 0 {
        d.lemma_len0_is_empty();
        Seq::empty()
    } else {
        let x = d.choose();
        let rest = d.remove(x);
        let s = lemma_some_listing(rest);
        lemma_put_text(s, rest, x);
        assert(rest.insert(x) =~= d);
        put_text(s, x)
    }
}

} // verus!
