//! The grammar of names, text records, tags and hex strings.
//!
//! Handles and labels share one grammar: 1 to 63 bytes of lowercase ASCII
//! letters, digits and hyphens, starting and ending with a letter or digit.
//! That is the DNS label grammar, so a scoped name `<handle>/<label>` can
//! become a path segment or a DNS label without escaping.

use vstd::prelude::*;
use vstd::utf8::*;

use crate::text::{
    chars_of, decimal, decimal_text, find, find_from, has_char, join2, join3, join4, lemma_find,
    pieces, same_text, split_text, text_of, texts,
};

verus! {

pub const MAX_SEGMENT: usize = 63;

pub const MAX_TEXT_KEY: usize = 32;

pub const MAX_TEXT_VALUE: usize = 512;

pub const MAX_TEXT_RECORDS: usize = 32;

pub const MAX_TAGS: usize = 16;

// --- segments -------------------------------------------------------------------

/// A character of a handle, a label, a flat name or a tag.
pub open spec fn segment_char(c: char) -> bool {
    'a' <= c <= 'z' || '0' <= c <= '9' || c == '-'
}

/// Every character satisfies the segment grammar.
pub open spec fn segment_chars(s: Seq<char>) -> bool {
    forall|i: int| 0 <= i < s.len() ==> segment_char(#[trigger] s[i])
}

/// A handle, a label, a flat name or a tag.
pub open spec fn is_segment(s: Seq<char>) -> bool {
    &&& 1 <= s.len() <= MAX_SEGMENT
    &&& segment_chars(s)
    &&& s[0] != '-'
    &&& s.last() != '-'
}

/// Why `s` is not a segment; `what` says which kind was expected. The
/// length is counted in UTF-8 bytes.
pub open spec fn segment_error(what: Seq<char>, s: Seq<char>) -> Seq<char> {
    if s.len() == 0 {
        what + " is empty"@
    } else if encode_utf8(s).len() > MAX_SEGMENT {
        what + " longer than 63 bytes"@
    } else if !segment_chars(s) {
        what + " may only contain a-z, 0-9 and '-'"@
    } else {
        what + " may not start or end with '-'"@
    }
}

/// Text of segment characters has one byte per character.
pub proof fn lemma_segment_bytes(s: Seq<char>)
    requires
        segment_chars(s),
    ensures
        encode_utf8(s).len() == s.len(),
{
    assert(is_ascii_chars(s)) by {
        assert forall|i: int| 0 <= i < s.len() implies '\0' <= #[trigger] s[i] <= '\u{7f}' by {
            assert(segment_char(s[i]));
        }
    }
    is_ascii_chars_encode_utf8(s);
}

/// Validate one segment (a handle or a label).
pub fn check_segment(what: &str, s: &str) -> (r: Result<(), String>)
    ensures
        r is Ok <==> is_segment(s@),
        r matches Err(e) ==> e@ == segment_error(what@, s@),
{
    let chars = chars_of(s);
    if chars.len() == 0 {
        return Err(join2(what, " is empty"));
    }
    let bytes: usize = s.as_bytes().len();
    proof {
        if is_segment(s@) {
            lemma_segment_bytes(s@);
        }
    }
    if bytes > MAX_SEGMENT {
        return Err(join2(what, " longer than 63 bytes"));
    }
    let mut i: usize = 0;
    while i < chars.len()
        invariant
            chars@ == s@,
            i <= chars@.len(),
            chars@.len() > 0,
            encode_utf8(s@).len() <= MAX_SEGMENT,
            forall|j: int| 0 <= j < i ==> segment_char(#[trigger] s@[j]),
        decreases chars.len() - i,
    {
        let c = chars[i];
        if !(('a' <= c && c <= 'z') || ('0' <= c && c <= '9') || c == '-') {
            assert(!segment_char(s@[i as int]));
            return Err(join2(what, " may only contain a-z, 0-9 and '-'"));
        }
        i += 1;
    }
    proof {
        assert(segment_chars(s@));
        lemma_segment_bytes(s@);
    }
    if chars[0] == '-' || chars[chars.len() - 1] == '-' {
        return Err(join2(what, " may not start or end with '-'"));
    }
    Ok(())
}

// --- scoped and flat names --------------------------------------------------------

/// The handle of a scoped name: what stands before the first '/'.
pub open spec fn handle_of(name: Seq<char>) -> Seq<char> {
    name.take(find(name, '/'))
}

/// The label of a scoped name: what stands after the first '/'.
pub open spec fn label_of(name: Seq<char>) -> Seq<char> {
    name.skip(find(name, '/') + 1)
}

/// A scoped name: `<handle>/<label>`, both segments.
pub open spec fn is_scoped_name(name: Seq<char>) -> bool {
    &&& name.contains('/')
    &&& is_segment(handle_of(name))
    &&& is_segment(label_of(name))
}

/// Why `name` is not a scoped name.
pub open spec fn scoped_error(name: Seq<char>) -> Seq<char> {
    if !name.contains('/') {
        "name must be <handle>/<label>"@
    } else if label_of(name).contains('/') {
        "name must have exactly one '/'"@
    } else if !is_segment(handle_of(name)) {
        segment_error("handle"@, handle_of(name))
    } else {
        segment_error("label"@, label_of(name))
    }
}

/// A segment holds no '/'.
pub proof fn lemma_segment_no_slash(s: Seq<char>)
    requires
        is_segment(s),
    ensures
        !s.contains('/'),
{
    if s.contains('/') {
        let i = choose|i: int| 0 <= i < s.len() && s[i] == '/';
        assert(segment_char(s[i]));
    }
}

/// Split and validate a scoped name into (handle, label).
pub fn split(name: &str) -> (r: Result<(String, String), String>)
    ensures
        r is Ok <==> is_scoped_name(name@),
        r matches Ok(p) ==> p.0@ == handle_of(name@) && p.1@ == label_of(name@) && name@ == p.0@
            + "/"@ + p.1@,
        r matches Err(e) ==> e@ == scoped_error(name@),
{
    let chars = chars_of(name);
    let i: usize = find_from(&chars, 0, '/');
    proof {
        assert(chars@.skip(0) =~= name@);
        lemma_find(name@, '/');
    }
    if i >= chars.len() {
        return Err("name must be <handle>/<label>".to_string());
    }
    let handle = text_of(&chars, 0, i);
    let label = text_of(&chars, i + 1, chars.len());
    proof {
        assert(handle@ =~= handle_of(name@));
        assert(label@ =~= label_of(name@));
        if is_segment(label@) {
            lemma_segment_no_slash(label@);
        }
        reveal_strlit("/");
        assert(name@ =~= handle@ + "/"@ + label@);
    }
    if has_char(label.as_str(), '/') {
        return Err("name must have exactly one '/'".to_string());
    }
    match check_segment("handle", handle.as_str()) {
        Err(e) => {
            return Err(e);
        },
        Ok(_) => {},
    }
    match check_segment("label", label.as_str()) {
        Err(e) => {
            return Err(e);
        },
        Ok(_) => {},
    }
    Ok((handle, label))
}

/// Whether a name is written as a scoped one: it holds a '/'.
pub fn is_scoped(name: &str) -> (r: bool)
    ensures
        r == name@.contains('/'),
{
    has_char(name, '/')
}

/// The flat names nobody may hold.
pub open spec fn is_reserved(name: Seq<char>) -> bool {
    name == "api"@
}

/// A flat name: one segment that is not reserved.
pub open spec fn is_flat_name(name: Seq<char>) -> bool {
    is_segment(name) && !is_reserved(name)
}

/// Why `name` is not a flat name.
pub open spec fn flat_error(name: Seq<char>) -> Seq<char> {
    if !is_segment(name) {
        segment_error("name"@, name)
    } else {
        "'"@ + name + "' is reserved"@
    }
}

/// Validate a flat name.
pub fn check_flat(name: &str) -> (r: Result<(), String>)
    ensures
        r is Ok <==> is_flat_name(name@),
        r matches Err(e) ==> e@ == flat_error(name@),
{
    match check_segment("name", name) {
        Err(e) => {
            return Err(e);
        },
        Ok(_) => {},
    }
    if same_text(name, "api") {
        return Err(join3("'", name, "' is reserved"));
    }
    Ok(())
}

// --- text records -----------------------------------------------------------------

/// A character of a text record's key.
pub open spec fn key_char(c: char) -> bool {
    'a' <= c <= 'z' || '0' <= c <= '9' || c == '_' || c == '.' || c == '-'
}

/// Every character is one of a text record's key.
pub open spec fn key_chars(s: Seq<char>) -> bool {
    forall|i: int| 0 <= i < s.len() ==> key_char(#[trigger] s[i])
}

/// A text record's key: 1 to 32 bytes of lowercase letters, digits, '_',
/// '.' and '-'.
pub open spec fn is_text_key(key: Seq<char>) -> bool {
    1 <= key.len() <= MAX_TEXT_KEY && key_chars(key)
}

/// Why `key` is not a text record's key.
pub open spec fn key_error(key: Seq<char>) -> Seq<char> {
    if key.len() == 0 || encode_utf8(key).len() > MAX_TEXT_KEY {
        "text key must be 1 to 32 bytes"@
    } else {
        "text key may only contain a-z, 0-9, '_', '.' and '-'"@
    }
}

/// Key characters take one byte each.
proof fn lemma_key_bytes(s: Seq<char>)
    requires
        key_chars(s),
    ensures
        encode_utf8(s).len() == s.len(),
{
    assert(is_ascii_chars(s)) by {
        assert forall|i: int| 0 <= i < s.len() implies '\0' <= #[trigger] s[i] <= '\u{7f}' by {
            assert(key_char(s[i]));
        }
    }
    is_ascii_chars_encode_utf8(s);
}

/// Validate a text record's key.
pub fn check_text_key(key: &str) -> (r: Result<(), String>)
    ensures
        r is Ok <==> is_text_key(key@),
        r matches Err(e) ==> e@ == key_error(key@),
{
    let chars = chars_of(key);
    let bytes: usize = key.as_bytes().len();
    proof {
        if is_text_key(key@) {
            lemma_key_bytes(key@);
        }
    }
    if chars.len() == 0 || bytes > MAX_TEXT_KEY {
        return Err("text key must be 1 to 32 bytes".to_string());
    }
    let mut i: usize = 0;
    while i < chars.len()
        invariant
            chars@ == key@,
            i <= chars@.len(),
            chars@.len() > 0,
            encode_utf8(key@).len() <= MAX_TEXT_KEY,
            forall|j: int| 0 <= j < i ==> key_char(#[trigger] key@[j]),
        decreases chars.len() - i,
    {
        let c = chars[i];
        if !(('a' <= c && c <= 'z') || ('0' <= c && c <= '9') || c == '_' || c == '.' || c == '-') {
            assert(!key_char(key@[i as int]));
            return Err("text key may only contain a-z, 0-9, '_', '.' and '-'".to_string());
        }
        i += 1;
    }
    proof {
        assert(key_chars(key@));
        lemma_key_bytes(key@);
    }
    Ok(())
}

/// A control character.
pub open spec fn is_control(c: char) -> bool {
    (c as u32) < 0x20 || 0x7f <= (c as u32) <= 0x9f
}

/// A text without control characters. The certified form of a record is
/// line oriented, so a newline in a value would let one record forge the
/// shape of another.
pub open spec fn printable(s: Seq<char>) -> bool {
    forall|i: int| 0 <= i < s.len() ==> !is_control(#[trigger] s[i])
}

/// A text record's value: at most 512 bytes, no control characters.
pub open spec fn is_text_value(value: Seq<char>) -> bool {
    encode_utf8(value).len() <= MAX_TEXT_VALUE && printable(value)
}

/// Why `value` is not a text record's value.
pub open spec fn value_error(value: Seq<char>) -> Seq<char> {
    if encode_utf8(value).len() > MAX_TEXT_VALUE {
        "text value longer than 512 bytes"@
    } else {
        "text value may not contain control characters"@
    }
}

/// Validate a text record's value.
pub fn check_text_value(value: &str) -> (r: Result<(), String>)
    ensures
        r is Ok <==> is_text_value(value@),
        r matches Err(e) ==> e@ == value_error(value@),
{
    let bytes: usize = value.as_bytes().len();
    if bytes > MAX_TEXT_VALUE {
        return Err("text value longer than 512 bytes".to_string());
    }
    let chars = chars_of(value);
    let mut i: usize = 0;
    while i < chars.len()
        invariant
            chars@ == value@,
            i <= chars@.len(),
            encode_utf8(value@).len() <= MAX_TEXT_VALUE,
            forall|j: int| 0 <= j < i ==> !is_control(#[trigger] value@[j]),
        decreases chars.len() - i,
    {
        let n: u32 = chars[i] as u32;
        if n < 0x20 || (0x7f <= n && n <= 0x9f) {
            assert(is_control(value@[i as int]));
            return Err("text value may not contain control characters".to_string());
        }
        i += 1;
    }
    Ok(())
}

// --- tags -------------------------------------------------------------------------

/// A well formed list of tags: at most 16 segments, no two the same.
pub open spec fn is_tag_list(tags: Seq<Seq<char>>) -> bool {
    &&& tags.len() <= MAX_TAGS
    &&& forall|i: int| 0 <= i < tags.len() ==> is_segment(#[trigger] tags[i])
    &&& tags.no_duplicates()
}

/// The value of the "tags" text record: tags separated by commas.
pub open spec fn is_tags_value(value: Seq<char>) -> bool {
    is_tag_list(pieces(value, ','))
}

/// The first tag from `i` on that is no segment or stands in the list
/// before, or the length.
pub open spec fn first_bad_tag(tags: Seq<Seq<char>>, i: int) -> int
    decreases tags.len() - i,
{
    if 0 <= i < tags.len() && is_segment(tags[i]) && !tags.take(i).contains(tags[i]) {
        first_bad_tag(tags, i + 1)
    } else {
        i
    }
}

/// Why a list of tags is refused: the first bad tag, or too many.
pub open spec fn tags_error(tags: Seq<Seq<char>>) -> Seq<char> {
    let i = first_bad_tag(tags, 0);
    if 0 <= i < tags.len() {
        if !is_segment(tags[i]) {
            segment_error("tag"@, tags[i])
        } else {
            "duplicate tag '"@ + tags[i] + "'"@
        }
    } else {
        "at most 16 tags"@
    }
}

/// Whether a list holds a text.
pub fn holds_text(list: &Vec<String>, s: &str) -> (r: bool)
    ensures
        r == texts(list@).contains(s@),
{
    let mut i: usize = 0;
    while i < list.len()
        invariant
            i <= list@.len(),
            forall|j: int| 0 <= j < i ==> texts(list@)[j] != s@,
        decreases list.len() - i,
    {
        if same_text(list[i].as_str(), s) {
            assert(texts(list@)[i as int] == s@);
            return true;
        }
        i += 1;
    }
    false
}

/// Validate the value of the "tags" text record. Returns the tags.
pub fn check_tags(value: &str) -> (r: Result<Vec<String>, String>)
    ensures
        r is Ok <==> is_tags_value(value@),
        r matches Ok(tags) ==> texts(tags@) == pieces(value@, ','),
        r matches Err(e) ==> e@ == tags_error(pieces(value@, ',')),
{
    let parts = split_text(value, ',');
    let ghost all = pieces(value@, ',');
    let mut tags: Vec<String> = Vec::new();
    let mut i: usize = 0;
    assert(texts(tags@) =~= all.take(0));
    while i < parts.len()
        invariant
            i <= parts@.len(),
            texts(parts@) == all,
            all == pieces(value@, ','),
            texts(tags@) == all.take(i as int),
            first_bad_tag(all, 0) == first_bad_tag(all, i as int),
            forall|j: int| 0 <= j < i ==> is_segment(#[trigger] all[j]),
            all.take(i as int).no_duplicates(),
        decreases parts.len() - i,
    {
        let tag = &parts[i];
        assert(tag@ == all[i as int]);
        match check_segment("tag", tag.as_str()) {
            Err(e) => {
                return Err(e);
            },
            Ok(_) => {},
        }
        if holds_text(&tags, tag.as_str()) {
            proof {
                let j = choose|j: int| 0 <= j < i && all.take(i as int)[j] == tag@;
                assert(all[j] == all[i as int]);
            }
            return Err(join3("duplicate tag '", tag.as_str(), "'"));
        }
        let ghost before = tags@;
        tags.push(tag.clone());
        proof {
            assert(texts(tags@) =~= texts(before).push(tag@));
            assert(all.take(i + 1) =~= all.take(i as int).push(all[i as int]));
            let done = all.take(i as int);
            let next = all.take(i + 1);
            assert forall|a: int, b: int| 0 <= a < next.len() && 0 <= b < next.len() && a
                != b implies #[trigger] next[a] != #[trigger] next[b] by {
                if a == i {
                    assert(done[b] == all[b]);
                } else if b == i {
                    assert(done[a] == all[a]);
                } else {
                    assert(done[a] != done[b]);
                }
            }
        }
        i += 1;
    }
    assert(all.take(i as int) =~= all);
    if tags.len() > MAX_TAGS {
        return Err("at most 16 tags".to_string());
    }
    Ok(tags)
}

// --- hex --------------------------------------------------------------------------

/// A lowercase hex digit.
pub open spec fn hex_char(c: char) -> bool {
    '0' <= c <= '9' || 'a' <= c <= 'f'
}

/// Every character is a lowercase hex digit.
pub open spec fn hex_chars(s: Seq<char>) -> bool {
    forall|i: int| 0 <= i < s.len() ==> hex_char(#[trigger] s[i])
}

/// Lowercase hex of one of the given byte lengths.
pub open spec fn is_hex(s: Seq<char>, byte_lens: Seq<usize>) -> bool {
    hex_chars(s) && exists|i: int| 0 <= i < byte_lens.len() && s.len() == 2 * #[trigger] byte_lens[i]
}

/// The accepted numbers of characters, joined by " or ".
pub open spec fn hex_lengths(byte_lens: Seq<usize>) -> Seq<char>
    decreases byte_lens.len(),
{
    if byte_lens.len() == 0 {
        Seq::<char>::empty()
    } else if byte_lens.len() == 1 {
        decimal((2 * byte_lens[0]) as nat)
    } else {
        hex_lengths(byte_lens.drop_last()) + " or "@ + decimal((2 * byte_lens.last()) as nat)
    }
}

/// Why `s` is not such a hex string.
pub open spec fn hex_error(what: Seq<char>, s: Seq<char>, byte_lens: Seq<usize>) -> Seq<char> {
    let n = encode_utf8(s).len();
    if !(exists|i: int| 0 <= i < byte_lens.len() && n == 2 * #[trigger] byte_lens[i]) {
        what + " must be "@ + hex_lengths(byte_lens) + " hex characters"@
    } else {
        what + " must be lowercase hex"@
    }
}

/// Hex digits take one byte each.
proof fn lemma_hex_bytes(s: Seq<char>)
    requires
        hex_chars(s),
    ensures
        encode_utf8(s).len() == s.len(),
{
    assert(is_ascii_chars(s)) by {
        assert forall|i: int| 0 <= i < s.len() implies '\0' <= #[trigger] s[i] <= '\u{7f}' by {
            assert(hex_char(s[i]));
        }
    }
    is_ascii_chars_encode_utf8(s);
}

/// Lowercase hex of exactly one of the given byte lengths (a git commit is
/// 20 bytes, a module hash 32). The lengths asked for are far below the
/// largest usize, and two hex characters write each byte.
pub fn check_hex(what: &str, s: &str, byte_lens: &[usize]) -> (r: Result<(), String>)
    requires
        forall|i: int| 0 <= i < byte_lens@.len() ==> 2 * (#[trigger] byte_lens@[i]) <= usize::MAX,
    ensures
        r is Ok <==> is_hex(s@, byte_lens@),
        r matches Err(e) ==> e@ == hex_error(what@, s@, byte_lens@),
{
    let n: usize = s.as_bytes().len();
    let mut found = false;
    let mut want = String::new();
    let mut i: usize = 0;
    assert(want@ =~= hex_lengths(byte_lens@.take(0)));
    while i < byte_lens.len()
        invariant
            i <= byte_lens@.len(),
            forall|j: int|
                0 <= j < byte_lens@.len() ==> 2 * (#[trigger] byte_lens@[j]) <= usize::MAX,
            found == exists|j: int| 0 <= j < i && n == 2 * #[trigger] byte_lens@[j],
            want@ == hex_lengths(byte_lens@.take(i as int)),
        decreases byte_lens.len() - i,
    {
        let len: usize = byte_lens[i];
        let twice: usize = len * 2;
        if n == twice {
            found = true;
        }
        let digits = decimal_text(twice as u128);
        let ghost shown = byte_lens@.take(i + 1);
        assert(shown.drop_last() =~= byte_lens@.take(i as int));
        assert(shown.last() == len);
        if i == 0 {
            want = digits;
        } else {
            want = join3(want.as_str(), " or ", digits.as_str());
        }
        i += 1;
    }
    assert(byte_lens@.take(i as int) =~= byte_lens@);
    proof {
        if hex_chars(s@) {
            lemma_hex_bytes(s@);
        }
    }
    if !found {
        return Err(join4(what, " must be ", want.as_str(), " hex characters"));
    }
    let chars = chars_of(s);
    let mut k: usize = 0;
    while k < chars.len()
        invariant
            chars@ == s@,
            k <= chars@.len(),
            exists|j: int|
                0 <= j < byte_lens@.len() && encode_utf8(s@).len() == 2 * #[trigger] byte_lens@[j],
            forall|j: int| 0 <= j < k ==> hex_char(#[trigger] s@[j]),
        decreases chars.len() - k,
    {
        let c = chars[k];
        if !(('0' <= c && c <= '9') || ('a' <= c && c <= 'f')) {
            assert(!hex_char(s@[k as int]));
            return Err(join2(what, " must be lowercase hex"));
        }
        k += 1;
    }
    proof {
        assert(hex_chars(s@));
        lemma_hex_bytes(s@);
    }
    Ok(())
}

// --- the grammar ------------------------------------------------------------------

/// A segment has 1 to 63 characters of `a` to `z`, `0` to `9` and '-', and
/// neither starts nor ends with '-'. Every such text is one.
pub proof fn law_segment_grammar(s: Seq<char>)
    ensures
        is_segment(s) <==> {
            &&& 1 <= s.len() <= 63
            &&& forall|i: int|
                0 <= i < s.len() ==> 'a' <= #[trigger] s[i] <= 'z' || '0' <= s[i] <= '9' || s[i]
                    == '-'
            &&& s[0] != '-'
            &&& s[s.len() - 1] != '-'
        },
{
    if forall|i: int|
        0 <= i < s.len() ==> 'a' <= #[trigger] s[i] <= 'z' || '0' <= s[i] <= '9' || s[i] == '-' {
        assert(segment_chars(s));
    }
    if segment_chars(s) {
        assert forall|i: int| 0 <= i < s.len() implies 'a' <= #[trigger] s[i] <= 'z' || '0' <= s[i]
            <= '9' || s[i] == '-' by {
            assert(segment_char(s[i]));
        }
    }
}

/// A scoped name is a handle, a slash and a label, and gives both back.
pub proof fn law_scoped_name_is_handle_and_label(handle: Seq<char>, label: Seq<char>)
    requires
        !handle.contains('/'),
    ensures
        ({
            let name = handle + seq!['/'] + label;
            &&& handle_of(name) == handle
            &&& label_of(name) == label
            &&& is_scoped_name(name) <==> is_segment(handle) && is_segment(label)
        }),
{
    let name = handle + seq!['/'] + label;
    let at = handle.len() as int;
    assert(name[at] == '/');
    assert(name.contains('/'));
    assert forall|j: int| 0 <= j < at implies name[j] != '/' by {
        assert(name[j] == handle[j]);
        assert(handle.contains(handle[j]));
    }
    crate::text::lemma_find_is(name, '/', at);
    assert(handle_of(name) =~= handle);
    assert(label_of(name) =~= label);
}

/// A flat name is any segment but "api"; it is never a scoped name.
pub proof fn law_flat_name_is_one_segment(name: Seq<char>)
    ensures
        is_flat_name(name) <==> is_segment(name) && name != "api"@,
        !(is_flat_name(name) && is_scoped_name(name)),
{
    if is_segment(name) {
        lemma_segment_no_slash(name);
    }
}

/// A text record's key has 1 to 32 characters of `a` to `z`, `0` to `9`,
/// '_', '.' and '-'; its value has at most 512 bytes and no control
/// character.
pub proof fn law_text_record_grammar(key: Seq<char>, value: Seq<char>)
    ensures
        is_text_key(key) <==> 1 <= key.len() <= 32 && forall|i: int|
            0 <= i < key.len() ==> 'a' <= #[trigger] key[i] <= 'z' || '0' <= key[i] <= '9'
                || key[i] == '_' || key[i] == '.' || key[i] == '-',
        is_text_value(value) <==> encode_utf8(value).len() <= 512 && forall|i: int|
            0 <= i < value.len() ==> 0x20 <= (#[trigger] value[i]) as u32 && !(0x7f <= value[i] as u32
                <= 0x9f),
{
    if key_chars(key) {
        assert forall|i: int| 0 <= i < key.len() implies 'a' <= #[trigger] key[i] <= 'z' || '0'
            <= key[i] <= '9' || key[i] == '_' || key[i] == '.' || key[i] == '-' by {
            assert(key_char(key[i]));
        }
    }
    if printable(value) {
        assert forall|i: int| 0 <= i < value.len() implies 0x20 <= (#[trigger] value[i]) as u32
            && !(0x7f <= value[i] as u32 <= 0x9f) by {
            assert(!is_control(value[i]));
        }
    }
}

/// Tags are at most 16 segments between commas, no two the same.
pub proof fn law_tags_grammar(value: Seq<char>)
    ensures
        is_tags_value(value) <==> {
            let tags = pieces(value, ',');
            &&& tags.len() <= 16
            &&& forall|i: int| 0 <= i < tags.len() ==> is_segment(#[trigger] tags[i])
            &&& forall|i: int, j: int|
                0 <= i < j < tags.len() ==> #[trigger] tags[i] != #[trigger] tags[j]
        },
{
    let tags = pieces(value, ',');
    if forall|i: int, j: int|
        0 <= i < j < tags.len() ==> #[trigger] tags[i] != #[trigger] tags[j] {
        assert(tags.no_duplicates());
    }
}

/// Hex of a given number of bytes has twice as many characters, each of `0`
/// to `9` and `a` to `f`.
pub proof fn law_hex_grammar(s: Seq<char>, bytes: usize)
    ensures
        is_hex(s, seq![bytes]) <==> s.len() == 2 * bytes && forall|i: int|
            0 <= i < s.len() ==> '0' <= #[trigger] s[i] <= '9' || 'a' <= s[i] <= 'f',
{
    let lens = seq![bytes];
    assert(lens[0] == bytes);
    if hex_chars(s) {
        assert forall|i: int| 0 <= i < s.len() implies '0' <= #[trigger] s[i] <= '9' || 'a' <= s[i]
            <= 'f' by {
            assert(hex_char(s[i]));
        }
    }
}

/// A text that is no segment, no scoped name or no flat name is told what is
/// wrong with it.
pub proof fn law_refused_names_say_why(what: Seq<char>, s: Seq<char>)
    ensures
        s.len() == 0 ==> segment_error(what, s) == what + " is empty"@,
        s.len() > 0 && encode_utf8(s).len() > 63 ==> segment_error(what, s) == what
            + " longer than 63 bytes"@,
        s.len() > 0 && encode_utf8(s).len() <= 63 && !segment_chars(s) ==> segment_error(what, s)
            == what + " may only contain a-z, 0-9 and '-'"@,
        !is_segment(s) && s.len() > 0 && segment_chars(s) && encode_utf8(s).len() <= 63
            ==> segment_error(what, s) == what + " may not start or end with '-'"@,
        !s.contains('/') ==> scoped_error(s) == "name must be <handle>/<label>"@,
        s.contains('/') && label_of(s).contains('/') ==> scoped_error(s)
            == "name must have exactly one '/'"@,
        !is_segment(s) ==> flat_error(s) == segment_error("name"@, s),
        s == "api"@ && is_segment(s) ==> flat_error(s) == "'"@ + s + "' is reserved"@,
{
}

} // verus!
