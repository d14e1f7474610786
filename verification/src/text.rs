//! Text: decimal numbers, joining, searching, splitting and trimming.
//!
//! A string is seen as its sequence of characters. The functions here work
//! on that sequence, and on its UTF-8 bytes where lengths or keys are
//! counted in bytes.

use vstd::prelude::*;
use vstd::utf8::*;

verus! {

// --- std functions that are used as they are ---------------------------------

/// `String::push` appends one character.
pub assume_specification[ String::push ](s: &mut String, c: char)
    ensures
        final(s)@ == old(s)@.push(c),
;

/// `String::from_utf8`: the text that the bytes encode, or None where they
/// are not valid UTF-8.
#[verifier::external_body]
pub(crate) fn text_from_utf8(bytes: Vec<u8>) -> (r: Option<String>)
    ensures
        r is Some <==> valid_utf8(bytes@),
        r matches Some(s) ==> s@ == decode_utf8(bytes@),
{
    String::from_utf8(bytes).ok()
}

/// What `String::from_utf8_lossy` makes of `bytes`: every sequence that is
/// not UTF-8 becomes a replacement character.
pub uninterp spec fn lossy_text(bytes: Seq<u8>) -> Seq<char>;

/// `String::from_utf8_lossy`. Valid UTF-8 comes out as the text it encodes.
#[verifier::external_body]
pub(crate) fn text_from_utf8_lossy(bytes: &[u8]) -> (r: String)
    ensures
        r@ == lossy_text(bytes@),
        valid_utf8(bytes@) ==> r@ == decode_utf8(bytes@),
{
    String::from_utf8_lossy(bytes).into_owned()
}

// --- views of optional and failing results ------------------------------------

/// An optional value by its view.
pub open spec fn seen<T: View>(o: Option<T>) -> Option<T::V> {
    match o {
        Some(x) => Some(x@),
        None => None,
    }
}

/// How a text prints for debugging.
pub uninterp spec fn text_debug(s: Seq<char>) -> Seq<char>;

/// `Debug` of `str`: the text in double quotes with what does not print
/// escaped. That it depends on the text alone is all that is claimed of it.
#[verifier::external_body]
pub(crate) fn debug_text(s: &str) -> (r: String)
    ensures
        r@ == text_debug(s@),
{
    format!("{s:?}")
}

/// A result whose error is a message, by the view of both.
pub open spec fn told<T: View>(r: Result<T, String>) -> Result<T::V, Seq<char>> {
    match r {
        Ok(x) => Ok(x@),
        Err(e) => Err(e@),
    }
}

/// A list of strings by their views.
pub open spec fn texts(s: Seq<String>) -> Seq<Seq<char>> {
    s.map_values(|t: String| t@)
}

/// A list of key and value strings by their views.
pub open spec fn pairs(s: Seq<(String, String)>) -> Seq<(Seq<char>, Seq<char>)> {
    s.map_values(|e: (String, String)| (e.0@, e.1@))
}

// --- UTF-8 ----------------------------------------------------------------------

/// Encoding keeps concatenation.
pub proof fn lemma_utf8_concat(a: Seq<char>, b: Seq<char>)
    ensures
        encode_utf8(a + b) == encode_utf8(a) + encode_utf8(b),
    decreases a.len(),
{
    if a.len() == 0 {
        assert(a + b =~= b);
        assert(encode_utf8(a) =~= Seq::<u8>::empty());
        assert(encode_utf8(a) + encode_utf8(b) =~= encode_utf8(b));
    } else {
        lemma_utf8_concat(a.drop_first(), b);
        assert((a + b).drop_first() =~= a.drop_first() + b);
        assert((a + b)[0] == a[0]);
        assert(encode_utf8(a + b) =~= encode_utf8(a) + encode_utf8(b));
    }
}

/// Two texts with the same encoding are the same text.
pub proof fn lemma_utf8_injective(a: Seq<char>, b: Seq<char>)
    requires
        encode_utf8(a) == encode_utf8(b),
    ensures
        a == b,
{
    encode_utf8_decode_utf8(a);
    encode_utf8_decode_utf8(b);
}

// --- equality -------------------------------------------------------------------

/// Whether two byte strings are the same.
pub fn same_bytes(a: &[u8], b: &[u8]) -> (r: bool)
    ensures
        r == (a@ == b@),
{
    if a.len() != b.len() {
        return false;
    }
    let mut i: usize = 0;
    while i < a.len()
        invariant
            a@.len() == b@.len(),
            i <= a@.len(),
            forall|j: int| 0 <= j < i ==> a@[j] == b@[j],
        decreases a.len() - i,
    {
        if a[i] != b[i] {
            return false;
        }
        i += 1;
    }
    assert(a@ =~= b@);
    true
}

/// Whether two strings are the same.
pub fn same_text(a: &str, b: &str) -> (r: bool)
    ensures
        r == (a@ == b@),
{
    let r = same_bytes(a.as_bytes(), b.as_bytes());
    proof {
        if r {
            lemma_utf8_injective(a@, b@);
        }
    }
    r
}

// --- building -------------------------------------------------------------------

/// `a` then `b`.
pub fn join2(a: &str, b: &str) -> (r: String)
    ensures
        r@ == a@ + b@,
{
    let mut s = a.to_string();
    s.append(b);
    s
}

/// `a`, `b`, `c` in order.
pub fn join3(a: &str, b: &str, c: &str) -> (r: String)
    ensures
        r@ == a@ + b@ + c@,
{
    let mut s = join2(a, b);
    s.append(c);
    s
}

/// `a`, `b`, `c`, `d` in order.
pub fn join4(a: &str, b: &str, c: &str, d: &str) -> (r: String)
    ensures
        r@ == a@ + b@ + c@ + d@,
{
    let mut s = join3(a, b, c);
    s.append(d);
    s
}

/// `a`, `b`, `c`, `d`, `e` in order.
pub fn join5(a: &str, b: &str, c: &str, d: &str, e: &str) -> (r: String)
    ensures
        r@ == a@ + b@ + c@ + d@ + e@,
{
    let mut s = join4(a, b, c, d);
    s.append(e);
    s
}

/// The characters of a string.
pub fn chars_of(s: &str) -> (r: Vec<char>)
    ensures
        r@ == s@,
{
    let mut r: Vec<char> = Vec::new();
    for c in it: s.chars()
        invariant
            r@ == it.seq().take(it.index() as int),
            it.seq() == s@,
    {
        r.push(c);
    }
    assert(s@.take(s@.len() as int) =~= s@);
    r
}

/// The string of the characters from `from` up to `to`.
pub fn text_of(chars: &Vec<char>, from: usize, to: usize) -> (r: String)
    requires
        from <= to <= chars@.len(),
    ensures
        r@ == chars@.subrange(from as int, to as int),
{
    let mut s = String::new();
    let mut i: usize = from;
    while i < to
        invariant
            from <= i <= to <= chars@.len(),
            s@ == chars@.subrange(from as int, i as int),
        decreases to - i,
    {
        s.push(chars[i]);
        i += 1;
        assert(chars@.subrange(from as int, i as int) =~= chars@.subrange(
            from as int,
            i - 1,
        ).push(chars@[i - 1]));
    }
    s
}

/// A copy of a list of strings.
pub fn copy_texts(v: &Vec<String>) -> (r: Vec<String>)
    ensures
        texts(r@) == texts(v@),
{
    let mut r: Vec<String> = Vec::new();
    let mut i: usize = 0;
    while i < v.len()
        invariant
            i <= v@.len(),
            texts(r@) == texts(v@).take(i as int),
        decreases v.len() - i,
    {
        let ghost before = r@;
        r.push(v[i].clone());
        i += 1;
        assert(texts(r@) =~= texts(before).push(v@[i - 1]@));
        assert(texts(v@).take(i as int) =~= texts(v@).take(i - 1).push(texts(v@)[i - 1]));
    }
    assert(texts(v@).take(v@.len() as int) =~= texts(v@));
    r
}

/// A copy of a list of key and value strings.
pub fn copy_pairs(v: &Vec<(String, String)>) -> (r: Vec<(String, String)>)
    ensures
        pairs(r@) == pairs(v@),
{
    let mut r: Vec<(String, String)> = Vec::new();
    let mut i: usize = 0;
    while i < v.len()
        invariant
            i <= v@.len(),
            pairs(r@) == pairs(v@).take(i as int),
        decreases v.len() - i,
    {
        let ghost before = r@;
        r.push((v[i].0.clone(), v[i].1.clone()));
        i += 1;
        assert(pairs(r@) =~= pairs(before).push(pairs(v@)[i - 1]));
        assert(pairs(v@).take(i as int) =~= pairs(v@).take(i - 1).push(pairs(v@)[i - 1]));
    }
    assert(pairs(v@).take(v@.len() as int) =~= pairs(v@));
    r
}

// --- decimal numbers ------------------------------------------------------------

/// The character of a decimal digit.
pub open spec fn digit(d: nat) -> char {
    (48 + d) as char
}

/// A number in decimal, without leading zeros.
pub open spec fn decimal(n: nat) -> Seq<char>
    decreases n,
{
    if n < 10 {
        seq![digit(n)]
    } else {
        decimal(n / 10).push(digit(n % 10))
    }
}

/// A number in decimal.
pub fn decimal_text(n: u128) -> (r: String)
    ensures
        r@ == decimal(n as nat),
    decreases n,
{
    if n < 10 {
        let mut s = String::new();
        s.push((48u8 + n as u8) as char);
        assert(s@ =~= decimal(n as nat));
        s
    } else {
        let mut s = decimal_text(n / 10);
        s.push((48u8 + (n % 10) as u8) as char);
        s
    }
}

/// Whether a character is a decimal digit.
pub open spec fn is_digit(c: char) -> bool {
    '0' <= c <= '9'
}

/// Decimal text is made of digits and is not empty.
pub proof fn lemma_decimal_digits(n: nat)
    ensures
        decimal(n).len() > 0,
        forall|i: int| 0 <= i < decimal(n).len() ==> is_digit(#[trigger] decimal(n)[i]),
    decreases n,
{
    if n >= 10 {
        lemma_decimal_digits(n / 10);
    }
}

/// Ten to the power of `k`.
pub open spec fn pow10(k: nat) -> nat
    decreases k,
{
    if k == 0 {
        1
    } else {
        10 * pow10((k - 1) as nat)
    }
}

/// A number below ten to the power of `k` has at most `k` digits.
pub proof fn lemma_decimal_len(n: nat, k: nat)
    requires
        k >= 1,
        n < pow10(k),
    ensures
        decimal(n).len() <= k,
    decreases k,
{
    if n >= 10 {
        if k == 1 {
            reveal_with_fuel(pow10, 2);
        }
        lemma_decimal_len(n / 10, (k - 1) as nat);
    }
}

/// A u64 has at most 20 digits.
pub proof fn lemma_decimal_len_u64(n: u64)
    ensures
        decimal(n as nat).len() <= 20,
{
    reveal_with_fuel(pow10, 21);
    assert(pow10(20) == 100_000_000_000_000_000_000);
    lemma_decimal_len(n as nat, 20);
}

/// The number that a run of digits writes.
pub open spec fn digits_value(s: Seq<char>) -> nat
    decreases s.len(),
{
    if s.len() == 0 {
        0
    } else {
        (digits_value(s.drop_last()) * 10 + (s.last() as nat - 48)) as nat
    }
}

/// Reading back the decimal form of a number gives the number.
pub proof fn lemma_decimal_value(n: nat)
    ensures
        digits_value(decimal(n)) == n,
    decreases n,
{
    if n < 10 {
        assert(decimal(n).drop_last() =~= Seq::<char>::empty());
        assert(digits_value(decimal(n).drop_last()) == 0);
    } else {
        lemma_decimal_value(n / 10);
        assert(decimal(n).drop_last() =~= decimal(n / 10));
    }
}

/// Different numbers have different decimal forms.
pub proof fn lemma_decimal_injective(a: nat, b: nat)
    requires
        decimal(a) == decimal(b),
    ensures
        a == b,
{
    lemma_decimal_value(a);
    lemma_decimal_value(b);
}

/// Whether a text is made of decimal digits.
pub open spec fn all_digits(s: Seq<char>) -> bool {
    forall|i: int| 0 <= i < s.len() ==> is_digit(#[trigger] s[i])
}

/// An unsigned number as it may be typed, without its optional '+'.
pub open spec fn unsigned_part(s: Seq<char>) -> Seq<char> {
    if s.len() > 0 && s[0] == '+' {
        s.drop_first()
    } else {
        s
    }
}

/// The u32 that `s` writes, if it writes one: an optional '+', then at
/// least one digit, and a value in range.
pub open spec fn number(s: Seq<char>) -> Option<u32> {
    let d = unsigned_part(s);
    if d.len() > 0 && all_digits(d) && digits_value(d) <= u32::MAX {
        Some(digits_value(d) as u32)
    } else {
        None
    }
}

/// A prefix of a run of digits never writes a larger number.
proof fn lemma_digits_prefix(d: Seq<char>, i: int)
    requires
        0 <= i <= d.len(),
        all_digits(d),
    ensures
        digits_value(d.take(i)) <= digits_value(d),
    decreases d.len() - i,
{
    if i < d.len() {
        lemma_digits_prefix(d, i + 1);
        assert(d.take(i + 1).drop_last() =~= d.take(i));
        assert(d.take(i + 1).last() == d[i]);
    } else {
        assert(d.take(i) =~= d);
    }
}

/// Read an unsigned number, None where `s` does not write a u32.
pub fn parse_number(s: &str) -> (r: Option<u32>)
    ensures
        r == number(s@),
{
    let chars = chars_of(s);
    let start: usize = if chars.len() > 0 && chars[0] == '+' {
        1
    } else {
        0
    };
    let ghost d = chars@.skip(start as int);
    assert(start == 1 ==> d =~= s@.drop_first());
    assert(start == 0 ==> d =~= s@);
    if start >= chars.len() {
        return None;
    }
    assert(d == unsigned_part(s@));
    let mut value: u64 = 0;
    let mut i: usize = start;
    while i < chars.len()
        invariant
            start <= i <= chars@.len(),
            d == chars@.skip(start as int),
            d.len() > 0,
            d == unsigned_part(s@),
            forall|j: int| 0 <= j < i - start ==> is_digit(#[trigger] d[j]),
            value == digits_value(d.take(i - start)),
            value <= u32::MAX,
        decreases chars.len() - i,
    {
        let c = chars[i];
        assert(c == d[i - start]);
        if !('0' <= c && c <= '9') {
            assert(!is_digit(d[i - start]));
            return None;
        }
        value = value * 10 + (c as u64 - 48);
        i += 1;
        proof {
            assert(d.take(i - start).drop_last() =~= d.take(i - start - 1));
            assert(d.take(i - start).last() == c);
            if value > u32::MAX {
                if all_digits(d) {
                    lemma_digits_prefix(d, i - start);
                }
            }
        }
        if value > 0xffff_ffff {
            return None;
        }
    }
    assert(d.take(i - start) =~= d);
    Some(value as u32)
}

/// The number that `s` writes, however large: an optional '+', then at least
/// one digit.
pub open spec fn count(s: Seq<char>) -> Option<nat> {
    let d = unsigned_part(s);
    if d.len() > 0 && all_digits(d) {
        Some(digits_value(d))
    } else {
        None
    }
}

/// Read an unsigned number, the largest u32 where it is larger than that.
pub fn parse_count(s: &str) -> (r: Option<u32>)
    ensures
        r is Some <==> count(s@) is Some,
        r matches Some(n) ==> n == if count(s@)->0 <= u32::MAX {
            count(s@)->0
        } else {
            u32::MAX as nat
        },
{
    let chars = chars_of(s);
    let start: usize = if chars.len() > 0 && chars[0] == '+' {
        1
    } else {
        0
    };
    let ghost d = chars@.skip(start as int);
    assert(start == 1 ==> d =~= s@.drop_first());
    assert(start == 0 ==> d =~= s@);
    if start >= chars.len() {
        return None;
    }
    assert(d == unsigned_part(s@));
    let mut value: u32 = 0;
    let mut i: usize = start;
    while i < chars.len()
        invariant
            start <= i <= chars@.len(),
            d == chars@.skip(start as int),
            d.len() > 0,
            d == unsigned_part(s@),
            forall|j: int| 0 <= j < i - start ==> is_digit(#[trigger] d[j]),
            value == if digits_value(d.take(i - start)) <= u32::MAX {
                digits_value(d.take(i - start))
            } else {
                u32::MAX as nat
            },
        decreases chars.len() - i,
    {
        let c = chars[i];
        assert(c == d[i - start]);
        if !('0' <= c && c <= '9') {
            assert(!is_digit(d[i - start]));
            return None;
        }
        let next: u64 = value as u64 * 10 + (c as u64 - 48);
        i += 1;
        proof {
            assert(d.take(i - start).drop_last() =~= d.take(i - start - 1));
            assert(d.take(i - start).last() == c);
        }
        value = if next <= 0xffff_ffff {
            next as u32
        } else {
            0xffff_ffff
        };
    }
    assert(d.take(i - start) =~= d);
    Some(value)
}

// --- searching ------------------------------------------------------------------

/// Where `c` first occurs in `s`, or the length of `s` where it does not.
pub open spec fn find(s: Seq<char>, c: char) -> int
    decreases s.len(),
{
    if s.len() == 0 || s[0] == c {
        0
    } else {
        1 + find(s.drop_first(), c)
    }
}

/// `find` is the first position of the character.
pub proof fn lemma_find(s: Seq<char>, c: char)
    ensures
        0 <= find(s, c) <= s.len(),
        forall|j: int| 0 <= j < find(s, c) ==> s[j] != c,
        find(s, c) < s.len() ==> s[find(s, c)] == c,
        find(s, c) < s.len() <==> s.contains(c),
    decreases s.len(),
{
    if s.len() == 0 || s[0] == c {
        if s.len() > 0 {
            assert(s.contains(c));
        }
    } else {
        let t = s.drop_first();
        lemma_find(t, c);
        assert forall|j: int| 0 <= j < find(s, c) implies s[j] != c by {
            if j > 0 {
                assert(s[j] == t[j - 1]);
            }
        }
        if find(s, c) < s.len() {
            assert(s[find(s, c)] == t[find(t, c)]);
            assert(s.contains(c));
        } else {
            assert forall|j: int| 0 <= j < s.len() implies s[j] != c by {}
        }
    }
}

/// A position with the character, and none before it, is what `find` gives.
pub proof fn lemma_find_is(s: Seq<char>, c: char, i: int)
    requires
        0 <= i <= s.len(),
        forall|j: int| 0 <= j < i ==> s[j] != c,
        i < s.len() ==> s[i] == c,
    ensures
        find(s, c) == i,
{
    lemma_find(s, c);
    if find(s, c) < i {
        assert(s[find(s, c)] == c);
    } else if i < find(s, c) {
        assert(s[i] == c);
    }
}

/// Where `c` first occurs at or after `from`, or the length.
pub fn find_from(chars: &Vec<char>, from: usize, c: char) -> (r: usize)
    requires
        from <= chars@.len(),
    ensures
        from <= r <= chars@.len(),
        r - from == find(chars@.skip(from as int), c),
{
    let mut i: usize = from;
    while i < chars.len() && chars[i] != c
        invariant
            from <= i <= chars@.len(),
            forall|j: int| from <= j < i ==> chars@[j] != c,
        decreases chars.len() - i,
    {
        i += 1;
    }
    proof {
        let t = chars@.skip(from as int);
        assert forall|j: int| 0 <= j < i - from implies t[j] != c by {
            assert(t[j] == chars@[from + j]);
        }
        lemma_find_is(t, c, i - from);
    }
    i
}

/// Whether a string holds a character.
pub fn has_char(s: &str, c: char) -> (r: bool)
    ensures
        r == s@.contains(c),
{
    let chars = chars_of(s);
    let i: usize = find_from(&chars, 0, c);
    proof {
        assert(chars@.skip(0) =~= s@);
        lemma_find(s@, c);
    }
    i < chars.len()
}

/// Whether `needle` occurs in `hay` as a run.
pub open spec fn occurs(needle: Seq<char>, hay: Seq<char>) -> bool {
    exists|i: int|
        0 <= i <= hay.len() - needle.len() && #[trigger] hay.subrange(i, i + needle.len())
            == needle
}

/// Whether `needle` stands in `hay` at position `at`.
fn stands_at(needle: &Vec<char>, hay: &Vec<char>, at: usize) -> (r: bool)
    requires
        at + needle@.len() <= hay@.len(),
    ensures
        r == (hay@.subrange(at as int, at + needle@.len()) == needle@),
{
    let mut j: usize = 0;
    let total: usize = hay.len();
    while j < needle.len()
        invariant
            j <= needle@.len(),
            total == hay@.len(),
            at + needle@.len() <= total,
            forall|k: int| 0 <= k < j ==> hay@[at + k] == needle@[k],
        decreases needle.len() - j,
    {
        if hay[at + j] != needle[j] {
            assert(hay@.subrange(at as int, at + needle@.len())[j as int] != needle@[j as int]);
            return false;
        }
        j += 1;
    }
    assert(hay@.subrange(at as int, at + needle@.len()) =~= needle@);
    true
}

/// Whether `needle` occurs in `hay`.
pub fn has_text(hay: &str, needle: &str) -> (r: bool)
    ensures
        r == occurs(needle@, hay@),
{
    let h = chars_of(hay);
    let n = chars_of(needle);
    if n.len() > h.len() {
        return false;
    }
    let last: usize = h.len() - n.len();
    let mut i: usize = 0;
    while i <= last
        invariant
            h@ == hay@,
            n@ == needle@,
            n@.len() <= h@.len(),
            last == h@.len() - n@.len(),
            i <= last + 1,
            forall|k: int| 0 <= k < i ==> #[trigger] h@.subrange(k, k + n@.len()) != n@,
        decreases last + 1 - i,
    {
        if stands_at(&n, &h, i) {
            return true;
        }
        if i == last {
            assert(forall|k: int|
                0 <= k <= last ==> #[trigger] h@.subrange(k, k + n@.len()) != n@);
            return false;
        }
        i += 1;
    }
    false
}

/// Whether `s` begins with `prefix`.
pub open spec fn begins(s: Seq<char>, prefix: Seq<char>) -> bool {
    prefix.len() <= s.len() && s.take(prefix.len() as int) == prefix
}

/// What follows `prefix` in `s`, if `s` begins with it.
pub fn after_prefix(s: &str, prefix: &str) -> (r: Option<String>)
    ensures
        r is Some <==> begins(s@, prefix@),
        r matches Some(t) ==> t@ == s@.skip(prefix@.len() as int),
{
    let chars = chars_of(s);
    let p = chars_of(prefix);
    if p.len() > chars.len() {
        return None;
    }
    let at = stands_at(&p, &chars, 0);
    assert(s@.subrange(0, p@.len() as int) =~= s@.take(p@.len() as int));
    if at {
        Some(text_of(&chars, p.len(), chars.len()))
    } else {
        None
    }
}

// --- splitting and trimming -------------------------------------------------------

/// The pieces of `s` between occurrences of `c`. Never empty: a text
/// without `c` is one piece.
pub open spec fn pieces(s: Seq<char>, c: char) -> Seq<Seq<char>>
    decreases s.len(),
{
    let i = find(s, c);
    if 0 <= i < s.len() {
        seq![s.take(i)] + pieces(s.skip(i + 1), c)
    } else {
        seq![s]
    }
}

/// Split a string at every `c`.
pub fn split_text(s: &str, c: char) -> (r: Vec<String>)
    ensures
        texts(r@) == pieces(s@, c),
{
    let chars = chars_of(s);
    let mut out: Vec<String> = Vec::new();
    let mut from: usize = 0;
    proof {
        assert(chars@.skip(0) =~= s@);
        assert(texts(out@) + pieces(s@, c) =~= pieces(s@, c));
    }
    loop
        invariant
            chars@ == s@,
            from <= chars@.len(),
            texts(out@) + pieces(chars@.skip(from as int), c) == pieces(s@, c),
        decreases chars.len() - from,
    {
        let i: usize = find_from(&chars, from, c);
        let ghost rest = chars@.skip(from as int);
        let ghost before = texts(out@);
        let piece = text_of(&chars, from, i);
        assert(piece@ =~= rest.take(i - from));
        out.push(piece);
        assert(texts(out@) =~= before.push(piece@));
        if i >= chars.len() {
            assert(rest.take(i - from) =~= rest);
            assert(texts(out@) =~= before + pieces(rest, c));
            return out;
        }
        assert(rest.skip(i - from + 1) =~= chars@.skip(i + 1));
        assert(texts(out@) + pieces(chars@.skip(i + 1), c) =~= before + pieces(rest, c));
        from = i + 1;
    }
}

/// `s` without the occurrences of `c` at its start.
pub open spec fn strip_front(s: Seq<char>, c: char) -> Seq<char>
    decreases s.len(),
{
    if s.len() > 0 && s[0] == c {
        strip_front(s.drop_first(), c)
    } else {
        s
    }
}

/// `s` without the occurrences of `c` at its end.
pub open spec fn strip_back(s: Seq<char>, c: char) -> Seq<char>
    decreases s.len(),
{
    if s.len() > 0 && s.last() == c {
        strip_back(s.drop_last(), c)
    } else {
        s
    }
}

/// A string without the occurrences of `c` at its start.
pub fn trim_front(s: &str, c: char) -> (r: String)
    ensures
        r@ == strip_front(s@, c),
{
    let chars = chars_of(s);
    let mut i: usize = 0;
    assert(chars@.skip(0) =~= s@);
    while i < chars.len() && chars[i] == c
        invariant
            chars@ == s@,
            i <= chars@.len(),
            strip_front(chars@.skip(i as int), c) == strip_front(s@, c),
        decreases chars.len() - i,
    {
        assert(chars@.skip(i as int).drop_first() =~= chars@.skip(i + 1));
        i += 1;
    }
    assert(chars@.subrange(i as int, chars@.len() as int) =~= chars@.skip(i as int));
    text_of(&chars, i, chars.len())
}

/// A string without the occurrences of `c` at its end.
pub fn trim_back(s: &str, c: char) -> (r: String)
    ensures
        r@ == strip_back(s@, c),
{
    let chars = chars_of(s);
    let mut n: usize = chars.len();
    assert(chars@.take(n as int) =~= s@);
    while n > 0 && chars[n - 1] == c
        invariant
            chars@ == s@,
            n <= chars@.len(),
            strip_back(chars@.take(n as int), c) == strip_back(s@, c),
        decreases n,
    {
        assert(chars@.take(n as int).drop_last() =~= chars@.take(n - 1));
        n -= 1;
    }
    assert(chars@.subrange(0, n as int) =~= chars@.take(n as int));
    text_of(&chars, 0, n)
}

/// Whether Unicode gives a character the property White_Space.
pub open spec fn is_white(c: char) -> bool {
    let n = c as u32;
    ||| 0x9 <= n <= 0xd
    ||| n == 0x20
    ||| n == 0x85
    ||| n == 0xa0
    ||| n == 0x1680
    ||| 0x2000 <= n <= 0x200a
    ||| n == 0x2028
    ||| n == 0x2029
    ||| n == 0x202f
    ||| n == 0x205f
    ||| n == 0x3000
}

/// Whether a character is white space.
fn white(c: char) -> (r: bool)
    ensures
        r == is_white(c),
{
    let n: u32 = c as u32;
    (0x9 <= n && n <= 0xd) || n == 0x20 || n == 0x85 || n == 0xa0 || n == 0x1680 || (0x2000 <= n
        && n <= 0x200a) || n == 0x2028 || n == 0x2029 || n == 0x202f || n == 0x205f || n == 0x3000
}

/// `s` without white space at its start.
pub open spec fn white_front(s: Seq<char>) -> Seq<char>
    decreases s.len(),
{
    if s.len() > 0 && is_white(s[0]) {
        white_front(s.drop_first())
    } else {
        s
    }
}

/// `s` without white space at its end.
pub open spec fn white_back(s: Seq<char>) -> Seq<char>
    decreases s.len(),
{
    if s.len() > 0 && is_white(s.last()) {
        white_back(s.drop_last())
    } else {
        s
    }
}

/// `s` without white space at either end.
pub open spec fn trimmed(s: Seq<char>) -> Seq<char> {
    white_back(white_front(s))
}

/// A string without white space at either end.
pub fn trim_text(s: &str) -> (r: String)
    ensures
        r@ == trimmed(s@),
{
    let chars = chars_of(s);
    let mut i: usize = 0;
    assert(chars@.skip(0) =~= s@);
    while i < chars.len() && white(chars[i])
        invariant
            chars@ == s@,
            i <= chars@.len(),
            white_front(chars@.skip(i as int)) == white_front(s@),
        decreases chars.len() - i,
    {
        assert(chars@.skip(i as int).drop_first() =~= chars@.skip(i + 1));
        i += 1;
    }
    let ghost front = chars@.skip(i as int);
    let mut n: usize = chars.len();
    assert(chars@.subrange(i as int, n as int) =~= front);
    while n > i && white(chars[n - 1])
        invariant
            i <= n <= chars@.len(),
            white_back(chars@.subrange(i as int, n as int)) == white_back(front),
        decreases n,
    {
        assert(chars@.subrange(i as int, n as int).drop_last() =~= chars@.subrange(
            i as int,
            n - 1,
        ));
        n -= 1;
    }
    text_of(&chars, i, n)
}

/// An ASCII capital letter as its small letter, another character as it is.
pub open spec fn small(c: char) -> char {
    if 'A' <= c <= 'Z' {
        (c as u32 + 32) as char
    } else {
        c
    }
}

/// `s` with its ASCII capital letters made small.
pub open spec fn lowered(s: Seq<char>) -> Seq<char> {
    s.map_values(|c: char| small(c))
}

/// A string with its ASCII capital letters made small.
pub fn lower_text(s: &str) -> (r: String)
    ensures
        r@ == lowered(s@),
{
    let chars = chars_of(s);
    let mut out = String::new();
    let mut i: usize = 0;
    while i < chars.len()
        invariant
            chars@ == s@,
            i <= chars@.len(),
            out@ == lowered(s@.take(i as int)),
        decreases chars.len() - i,
    {
        let c = chars[i];
        let d = if 'A' <= c && c <= 'Z' {
            (c as u8 + 32) as char
        } else {
            c
        };
        out.push(d);
        i += 1;
        assert(out@ =~= lowered(s@.take(i as int)));
    }
    assert(s@.take(s@.len() as int) =~= s@);
    out
}

// --- what splitting, trimming and small letters are -------------------------------------

/// Texts one after the other with a character between them.
pub open spec fn rejoined(parts: Seq<Seq<char>>, c: char) -> Seq<char>
    decreases parts.len(),
{
    if parts.len() == 0 {
        Seq::empty()
    } else if parts.len() == 1 {
        parts[0]
    } else {
        parts[0] + seq![c] + rejoined(parts.drop_first(), c)
    }
}

/// Splitting loses nothing and splits everywhere: the pieces joined again
/// are the text, and none of them holds the character.
pub proof fn law_pieces_rejoin(s: Seq<char>, c: char)
    ensures
        pieces(s, c).len() >= 1,
        rejoined(pieces(s, c), c) == s,
        forall|i: int| 0 <= i < pieces(s, c).len() ==> !(#[trigger] pieces(s, c)[i]).contains(c),
    decreases s.len(),
{
    let at = find(s, c);
    let all = pieces(s, c);
    lemma_find(s, c);
    if at < s.len() {
        let rest = s.skip(at + 1);
        law_pieces_rejoin(rest, c);
        assert(all.drop_first() =~= pieces(rest, c));
        assert(s =~= s.take(at) + seq![c] + rest);
        assert forall|i: int| 0 <= i < all.len() implies !(#[trigger] all[i]).contains(c) by {
            if i > 0 {
                assert(all[i] == pieces(rest, c)[i - 1]);
            }
        }
    }
}

/// Trimming takes white space off both ends and nothing else: what is left
/// starts and ends with something else, and what was taken off is white.
pub proof fn law_trimming_takes_white_space(s: Seq<char>)
    ensures
        trimmed(s).len() > 0 ==> !is_white(trimmed(s)[0]) && !is_white(trimmed(s).last()),
        exists|a: int, b: int|
            0 <= a <= b <= s.len() && #[trigger] s.subrange(a, b) == trimmed(s) && (forall|i: int|
                0 <= i < s.len() && !(a <= i < b) ==> is_white(#[trigger] s[i])),
{
    let a = lemma_white_front(s);
    let front = s.skip(a);
    let b = lemma_white_back(front);
    assert(s.subrange(a, a + b) =~= front.take(b));
    assert forall|i: int| 0 <= i < s.len() && !(a <= i < a + b) implies is_white(#[trigger] s[i]) by {
        if i >= a {
            assert(s[i] == front[i - a]);
        }
    }
    if b > 0 {
        assert(trimmed(s)[0] == front[0]);
    }
}

/// How much white space stands at the start.
proof fn lemma_white_front(s: Seq<char>) -> (a: int)
    ensures
        0 <= a <= s.len(),
        white_front(s) == s.skip(a),
        forall|i: int| 0 <= i < a ==> is_white(#[trigger] s[i]),
        a < s.len() ==> !is_white(s[a]),
    decreases s.len(),
{
    if s.len() > 0 && is_white(s[0]) {
        let rest = s.drop_first();
        let a = lemma_white_front(rest);
        assert(rest.skip(a) =~= s.skip(a + 1));
        assert forall|i: int| 0 <= i < a + 1 implies is_white(#[trigger] s[i]) by {
            if i > 0 {
                assert(s[i] == rest[i - 1]);
            }
        }
        a + 1
    } else {
        assert(s.skip(0) =~= s);
        0
    }
}

/// How much is left before the white space at the end.
proof fn lemma_white_back(s: Seq<char>) -> (b: int)
    ensures
        0 <= b <= s.len(),
        white_back(s) == s.take(b),
        forall|i: int| b <= i < s.len() ==> is_white(#[trigger] s[i]),
        b > 0 ==> !is_white(s[b - 1]),
    decreases s.len(),
{
    if s.len() > 0 && is_white(s.last()) {
        let rest = s.drop_last();
        let b = lemma_white_back(rest);
        assert(rest.take(b) =~= s.take(b));
        assert forall|i: int| b <= i < s.len() implies is_white(#[trigger] s[i]) by {
            if i < rest.len() {
                assert(s[i] == rest[i]);
            }
        }
        b
    } else {
        assert(s.take(s.len() as int) =~= s);
        s.len() as int
    }
}

/// Making letters small makes `A` to `Z` into `a` to `z` and changes nothing
/// else; doing it twice is doing it once.
pub proof fn law_small_letters(s: Seq<char>, i: int)
    requires
        0 <= i < s.len(),
    ensures
        lowered(s).len() == s.len(),
        'A' <= s[i] <= 'Z' ==> lowered(s)[i] as u32 == s[i] as u32 + 32 && 'a' <= lowered(s)[i]
            <= 'z',
        !('A' <= s[i] <= 'Z') ==> lowered(s)[i] == s[i],
        lowered(lowered(s)) == lowered(s),
{
    assert(lowered(lowered(s)) =~= lowered(s));
}

/// A text occurs in another exactly where the other is the text with
/// something before and something behind it, be it nothing.
pub proof fn law_occurs_anywhere(needle: Seq<char>, hay: Seq<char>)
    ensures
        occurs(needle, hay) <==> exists|front: Seq<char>, back: Seq<char>|
            hay == #[trigger] wrapped(front, needle, back),
{
    if occurs(needle, hay) {
        let i = choose|i: int|
            0 <= i <= hay.len() - needle.len() && #[trigger] hay.subrange(i, i + needle.len())
                == needle;
        let (front, back) = (hay.take(i), hay.skip(i + needle.len()));
        assert(hay =~= wrapped(front, needle, back));
    }
    if exists|front: Seq<char>, back: Seq<char>| hay == #[trigger] wrapped(front, needle, back) {
        let (front, back) = choose|front: Seq<char>, back: Seq<char>|
            hay == #[trigger] wrapped(front, needle, back);
        let i = front.len() as int;
        assert(hay.subrange(i, i + needle.len()) =~= needle);
    }
}

/// A text with something before and something behind it.
pub open spec fn wrapped(front: Seq<char>, middle: Seq<char>, back: Seq<char>) -> Seq<char> {
    front + middle + back
}

/// A text begins with a prefix exactly where it is the prefix and something
/// behind it.
pub proof fn law_begins_at_the_start(prefix: Seq<char>, rest: Seq<char>, s: Seq<char>)
    ensures
        begins(prefix + rest, prefix),
        begins(s, prefix) ==> s == prefix + s.skip(prefix.len() as int),
{
    assert((prefix + rest).take(prefix.len() as int) =~= prefix);
    if begins(s, prefix) {
        assert(s =~= prefix + s.skip(prefix.len() as int));
    }
}

/// Stripping takes every occurrence of a character off an end, and nothing
/// else.
pub proof fn law_stripping_takes_one_character(s: Seq<char>, c: char)
    ensures
        strip_front(seq![c] + s, c) == strip_front(s, c),
        strip_back(s.push(c), c) == strip_back(s, c),
        s.len() > 0 && s[0] != c ==> strip_front(s, c) == s,
        s.len() > 0 && s.last() != c ==> strip_back(s, c) == s,
        strip_front(Seq::empty(), c).len() == 0,
        strip_back(Seq::empty(), c).len() == 0,
{
    assert((seq![c] + s).drop_first() =~= s);
    assert(s.push(c).drop_last() =~= s);
}

/// Numbers read back as they are written, with or without a '+' before
/// them; text that holds anything else than digits behind that is none.
pub proof fn law_written_numbers_read_back(n: nat, s: Seq<char>)
    ensures
        count(decimal(n)) == Some(n),
        count(seq!['+'] + decimal(n)) == Some(n),
        n <= u32::MAX ==> number(decimal(n)) == Some(n as u32) && number(seq!['+'] + decimal(n))
            == Some(n as u32),
        n > u32::MAX ==> number(decimal(n)) is None,
        (exists|i: int|
            0 < i < s.len() && !('0' <= #[trigger] s[i] <= '9')) || s.len() == 0 ==> number(s) is None
            && count(s) is None,
{
    lemma_decimal_digits(n);
    lemma_decimal_value(n);
    let d = decimal(n);
    assert(is_digit(d[0]));
    assert(unsigned_part(d) == d);
    assert((seq!['+'] + d).drop_first() =~= d);
    assert(all_digits(d));
    if exists|i: int| 0 < i < s.len() && !('0' <= #[trigger] s[i] <= '9') {
        let i = choose|i: int| 0 < i < s.len() && !('0' <= #[trigger] s[i] <= '9');
        let u = unsigned_part(s);
        if s[0] == '+' {
            assert(u[i - 1] == s[i]);
        } else {
            assert(u[i] == s[i]);
        }
    }
}

} // verus!
