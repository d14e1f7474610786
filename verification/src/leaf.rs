//! A certified leaf stands for one record: different records have different
//! canonical bytes, so what a witness reveals cannot be read as another
//! record.

use vstd::prelude::*;
use vstd::utf8::*;

use crate::names::{handle_of, is_control, is_scoped_name, key_char, label_of, segment_char};
use crate::principal::{principal_chars, principal_text, reads_as};
use crate::record::{
    canonical_bytes, canonical_text, flat_lines, head_lines, lapse_text, previous_lines,
    record_lines, target_text, text_line, time_lines, unlines, HandleState, RecordState,
    TargetState,
};
use crate::registry::{good_entry, good_record};
use crate::text::{
    decimal, find, is_digit, lemma_decimal_digits, lemma_decimal_injective, lemma_find,
    lemma_utf8_injective,
};

verus! {

// --- what makes a record legible ------------------------------------------------------------

/// A text without line breaks.
pub open spec fn one_line(s: Seq<char>) -> bool {
    !s.contains('\n')
}

/// A principal whose textual form is one line that reads back.
pub open spec fn spelled(p: Seq<u8>) -> bool {
    one_line(principal_text(p)) && reads_as(principal_text(p), p)
}

/// A target that is written on one line and reads back.
pub open spec fn target_spelled(t: TargetState) -> bool {
    match t {
        TargetState::Address(p) => spelled(p),
        TargetState::Alias(n) => one_line(n),
    }
}

/// A text record that stands on one line, with a key that ends at the '='.
pub open spec fn entry_spelled(e: (Seq<char>, Seq<char>)) -> bool {
    one_line(e.0) && one_line(e.1) && !e.0.contains('=')
}

/// A record each of whose fields is written on one line and reads back.
pub open spec fn legible(r: RecordState) -> bool {
    &&& one_line(r.name)
    &&& spelled(r.owner)
    &&& target_spelled(r.target)
    &&& r.previous_target matches Some(t) ==> target_spelled(t)
    &&& forall|i: int| 0 <= i < r.text.len() ==> entry_spelled(#[trigger] r.text[i])
}

// --- lines ----------------------------------------------------------------------------------

/// What follows a common start is the same.
proof fn lemma_same_rest(start: Seq<char>, x: Seq<char>, y: Seq<char>)
    requires
        start + x == start + y,
    ensures
        x == y,
{
    assert(x =~= (start + x).skip(start.len() as int));
    assert(y =~= (start + y).skip(start.len() as int));
}

/// Lines end in a line break.
proof fn lemma_unlines_end(lines: Seq<Seq<char>>)
    ensures
        lines.len() > 0 ==> unlines(lines).len() > 0 && unlines(lines).last() == '\n',
        lines.len() == 0 ==> unlines(lines).len() == 0,
{
    reveal_strlit("\n");
}

/// Lines without line breaks can be told apart again.
proof fn lemma_unlines_injective(a: Seq<Seq<char>>, b: Seq<Seq<char>>)
    requires
        unlines(a) == unlines(b),
        forall|i: int| 0 <= i < a.len() ==> one_line(#[trigger] a[i]),
        forall|i: int| 0 <= i < b.len() ==> one_line(#[trigger] b[i]),
    ensures
        a == b,
    decreases a.len(),
{
    reveal_strlit("\n");
    lemma_unlines_end(a);
    lemma_unlines_end(b);
    if a.len() > 0 {
        let x = unlines(a);
        let (ra, rb) = (a.drop_last(), b.drop_last());
        let (la, lb) = (a.last(), b.last());
        let (ua, ub) = (unlines(ra), unlines(rb));
        lemma_unlines_end(ra);
        lemma_unlines_end(rb);
        assert(one_line(a[a.len() - 1]) && one_line(b[b.len() - 1]));
        lemma_last_line(ua, la, ub, lb);
        assert(ua =~= x.take(ua.len() as int));
        assert(ub =~= x.take(ub.len() as int));
        assert(la =~= x.subrange(ua.len() as int, (ua.len() + la.len()) as int));
        assert(lb =~= x.subrange(ub.len() as int, (ub.len() + lb.len()) as int));
        assert forall|i: int| 0 <= i < ra.len() implies one_line(#[trigger] ra[i]) by {
            assert(ra[i] == a[i]);
        }
        assert forall|i: int| 0 <= i < rb.len() implies one_line(#[trigger] rb[i]) by {
            assert(rb[i] == b[i]);
        }
        lemma_unlines_injective(ra, rb);
        assert(a =~= ra.push(la));
        assert(b =~= rb.push(lb));
    } else {
        assert(a =~= b);
    }
}

/// The last of some lines is as long however they are cut.
proof fn lemma_last_line(ua: Seq<char>, la: Seq<char>, ub: Seq<char>, lb: Seq<char>)
    requires
        ua + la + "\n"@ == ub + lb + "\n"@,
        ua.len() > 0 ==> ua.last() == '\n',
        ub.len() > 0 ==> ub.last() == '\n',
        one_line(la),
        one_line(lb),
    ensures
        la.len() == lb.len(),
        ua.len() == ub.len(),
{
    reveal_strlit("\n");
    let x = ua + la + "\n"@;
    let y = ub + lb + "\n"@;
    assert(x.len() == ua.len() + la.len() + 1);
    assert(y.len() == ub.len() + lb.len() + 1);
    if la.len() < lb.len() {
        let i = ua.len() - 1;
        assert(x[i] == ua.last());
        assert(y[i] == lb[i - ub.len()]);
        assert(lb.contains('\n'));
    } else if lb.len() < la.len() {
        let i = ub.len() - 1;
        assert(y[i] == ub.last());
        assert(x[i] == la[i - ua.len()]);
        assert(la.contains('\n'));
    }
}

/// A joined text without line breaks in its parts has none.
proof fn lemma_join_one_line(a: Seq<char>, b: Seq<char>)
    requires
        one_line(a),
        one_line(b),
    ensures
        one_line(a + b),
{
    let s = a + b;
    if s.contains('\n') {
        let i = choose|i: int| 0 <= i < s.len() && s[i] == '\n';
        if i < a.len() {
            assert(a[i] == '\n');
        } else {
            assert(b[i - a.len()] == '\n');
        }
    }
}

/// A number is written on one line, in digits.
proof fn lemma_decimal_one_line(n: nat)
    ensures
        one_line(decimal(n)),
        decimal(n).len() > 0,
        is_digit(decimal(n)[0]),
{
    lemma_decimal_digits(n);
    if decimal(n).contains('\n') {
        let i = choose|i: int| 0 <= i < decimal(n).len() && decimal(n)[i] == '\n';
        assert(is_digit(decimal(n)[i]));
    }
}

/// The constant parts of the lines hold no line break.
proof fn lemma_labels_one_line()
    ensures
        one_line("name="@),
        one_line("owner="@),
        one_line("target="@),
        one_line("address:"@),
        one_line("alias:"@),
        one_line("text."@),
        one_line("="@),
        one_line("created_ns="@),
        one_line("updated_ns="@),
        one_line("changed_hands_ns="@),
        one_line("previous_target="@),
        one_line("price="@),
        one_line("balance="@),
        one_line("settled_ns="@),
        one_line("lapsed_ns="@),
        one_line("none"@),
{
    reveal_strlit("name=");
    reveal_strlit("owner=");
    reveal_strlit("target=");
    reveal_strlit("address:");
    reveal_strlit("alias:");
    reveal_strlit("text.");
    reveal_strlit("=");
    reveal_strlit("created_ns=");
    reveal_strlit("updated_ns=");
    reveal_strlit("changed_hands_ns=");
    reveal_strlit("previous_target=");
    reveal_strlit("price=");
    reveal_strlit("balance=");
    reveal_strlit("settled_ns=");
    reveal_strlit("lapsed_ns=");
    reveal_strlit("none");
}

/// A legible target is written on one line.
proof fn lemma_target_one_line(t: TargetState)
    requires
        target_spelled(t),
    ensures
        one_line(target_text(t)),
{
    lemma_labels_one_line();
    match t {
        TargetState::Address(p) => lemma_join_one_line("address:"@, principal_text(p)),
        TargetState::Alias(n) => lemma_join_one_line("alias:"@, n),
    }
}

/// A legible target is the only one written as it is.
proof fn lemma_target_injective(a: TargetState, b: TargetState)
    requires
        target_spelled(a),
        target_spelled(b),
        target_text(a) == target_text(b),
    ensures
        a == b,
{
    reveal_strlit("address:");
    reveal_strlit("alias:");
    match (a, b) {
        (TargetState::Address(p), TargetState::Address(q)) => {
            lemma_same_rest("address:"@, principal_text(p), principal_text(q));
        },
        (TargetState::Alias(m), TargetState::Alias(n)) => {
            lemma_same_rest("alias:"@, m, n);
        },
        (TargetState::Address(p), TargetState::Alias(n)) => {
            assert(("address:"@ + principal_text(p))[1] == 'd');
            assert(("alias:"@ + n)[1] == 'l');
        },
        (TargetState::Alias(n), TargetState::Address(p)) => {
            assert(("address:"@ + principal_text(p))[1] == 'd');
            assert(("alias:"@ + n)[1] == 'l');
        },
    }
}

/// When a holding lapsed is written in one way only.
proof fn lemma_lapse_injective(a: Option<u64>, b: Option<u64>)
    requires
        lapse_text(a) == lapse_text(b),
    ensures
        a == b,
{
    reveal_strlit("none");
    if a is Some {
        lemma_decimal_one_line(a->0 as nat);
    }
    if b is Some {
        lemma_decimal_one_line(b->0 as nat);
    }
    match (a, b) {
        (Some(x), Some(y)) => lemma_decimal_injective(x as nat, y as nat),
        _ => {},
    }
}

/// A legible text record is the only one written as it is.
proof fn lemma_entry_injective(a: (Seq<char>, Seq<char>), b: (Seq<char>, Seq<char>))
    requires
        entry_spelled(a),
        entry_spelled(b),
        text_line(a) == text_line(b),
    ensures
        a == b,
{
    reveal_strlit("=");
    let x = a.0 + "="@ + a.1;
    let y = b.0 + "="@ + b.1;
    assert(text_line(a) =~= "text."@ + x);
    assert(text_line(b) =~= "text."@ + y);
    lemma_same_rest("text."@, x, y);
    let (m, n) = (a.0.len() as int, b.0.len() as int);
    assert(x[m] == '=' && y[n] == '=');
    if m < n {
        assert(y[m] == b.0[m]);
        assert(b.0.contains('='));
    } else if n < m {
        assert(x[n] == a.0[n]);
        assert(a.0.contains('='));
    }
    assert(a.0 =~= x.take(m));
    assert(b.0 =~= y.take(n));
    assert(a.1 =~= x.skip(m + 1));
    assert(b.1 =~= y.skip(n + 1));
}

/// Every line of a legible record is one line.
proof fn lemma_lines_one_line(r: RecordState)
    requires
        legible(r),
    ensures
        forall|i: int| 0 <= i < record_lines(r).len() ==> one_line(#[trigger] record_lines(r)[i]),
{
    lemma_labels_one_line();
    let head = head_lines(r);
    let entries = r.text.map_values(|e: (Seq<char>, Seq<char>)| text_line(e));
    let times = time_lines(r);
    let previous = previous_lines(r);
    let flat = flat_lines(r);
    lemma_join_one_line("name="@, r.name);
    lemma_join_one_line("owner="@, principal_text(r.owner));
    lemma_target_one_line(r.target);
    lemma_join_one_line("target="@, target_text(r.target));
    assert forall|i: int| 0 <= i < entries.len() implies one_line(#[trigger] entries[i]) by {
        let e = r.text[i];
        assert(entry_spelled(e));
        lemma_join_one_line("text."@, e.0);
        lemma_join_one_line("text."@ + e.0, "="@);
        lemma_join_one_line("text."@ + e.0 + "="@, e.1);
    }
    lemma_decimal_one_line(r.created_ns as nat);
    lemma_decimal_one_line(r.updated_ns as nat);
    lemma_decimal_one_line(r.changed_hands_ns as nat);
    lemma_join_one_line("created_ns="@, decimal(r.created_ns as nat));
    lemma_join_one_line("updated_ns="@, decimal(r.updated_ns as nat));
    lemma_join_one_line("changed_hands_ns="@, decimal(r.changed_hands_ns as nat));
    if r.previous_target is Some {
        lemma_target_one_line(r.previous_target->0);
        lemma_join_one_line("previous_target="@, target_text(r.previous_target->0));
    }
    if r.flat is Some {
        let h = r.flat->0;
        lemma_decimal_one_line(h.price as nat);
        lemma_decimal_one_line(h.balance as nat);
        lemma_decimal_one_line(h.settled_ns as nat);
        if h.lapsed_ns is Some {
            lemma_decimal_one_line(h.lapsed_ns->0 as nat);
        }
        lemma_join_one_line("price="@, decimal(h.price as nat));
        lemma_join_one_line("balance="@, decimal(h.balance as nat));
        lemma_join_one_line("settled_ns="@, decimal(h.settled_ns as nat));
        lemma_join_one_line("lapsed_ns="@, lapse_text(h.lapsed_ns));
    }
    let all = record_lines(r);
    let n = entries.len();
    assert forall|i: int| 0 <= i < all.len() implies one_line(#[trigger] all[i]) by {
        if i < 3 {
            assert(all[i] == head[i]);
        } else if i < 3 + n {
            assert(all[i] == entries[i - 3]);
        } else if i < 6 + n {
            assert(all[i] == times[i - 3 - n]);
        } else if i < 6 + n + previous.len() {
            assert(all[i] == previous[i - 6 - n]);
        } else {
            assert(all[i] == flat[i - 6 - n - previous.len()]);
        }
    }
}

/// Where the lines of a record stand.
proof fn lemma_line_places(r: RecordState)
    ensures
        ({
            let all = record_lines(r);
            let n = r.text.len() as int;
            let p = previous_lines(r).len() as int;
            &&& all.len() == 6 + n + p + flat_lines(r).len()
            &&& all[0] == head_lines(r)[0]
            &&& all[1] == head_lines(r)[1]
            &&& all[2] == head_lines(r)[2]
            &&& forall|i: int| 0 <= i < n ==> #[trigger] all[3 + i] == text_line(r.text[i])
            &&& all[3 + n] == time_lines(r)[0]
            &&& all[4 + n] == time_lines(r)[1]
            &&& all[5 + n] == time_lines(r)[2]
            &&& forall|i: int| 0 <= i < p ==> #[trigger] all[6 + n + i] == previous_lines(r)[i]
            &&& forall|i: int|
                0 <= i < flat_lines(r).len() ==> #[trigger] all[6 + n + p + i] == flat_lines(r)[i]
        }),
{
}

/// Records with the same lines have as many text records.
proof fn lemma_same_count(a: RecordState, b: RecordState)
    requires
        record_lines(a) == record_lines(b),
    ensures
        a.text.len() <= b.text.len(),
{
    lemma_line_places(a);
    lemma_line_places(b);
    if b.text.len() < a.text.len() {
        let m = b.text.len() as int;
        reveal_strlit("text.");
        reveal_strlit("created_ns=");
        let line = record_lines(a)[3 + m];
        assert(line == text_line(a.text[m]));
        assert(line[0] == 't');
        assert(record_lines(b)[3 + m] == time_lines(b)[0]);
        assert(time_lines(b)[0][0] == 'c');
    }
}

/// Two legible records with the same certified text are the same record.
pub proof fn law_leaf_is_one_record(a: RecordState, b: RecordState)
    ensures
        legible(a) && legible(b) && canonical_bytes(a) == canonical_bytes(b) ==> a == b,
{
    if legible(a) && legible(b) && canonical_bytes(a) == canonical_bytes(b) {
        lemma_utf8_injective(canonical_text(a), canonical_text(b));
        lemma_lines_one_line(a);
        lemma_lines_one_line(b);
        lemma_unlines_injective(record_lines(a), record_lines(b));
        lemma_same_fields(a, b);
    }
}

proof fn lemma_same_fields(a: RecordState, b: RecordState)
    requires
        legible(a),
        legible(b),
        record_lines(a) == record_lines(b),
    ensures
        a == b,
{
    let all = record_lines(a);
    lemma_same_count(a, b);
    lemma_same_count(b, a);
    lemma_line_places(a);
    lemma_line_places(b);
    let n = a.text.len() as int;
    lemma_same_rest("name="@, a.name, b.name);
    lemma_same_rest("owner="@, principal_text(a.owner), principal_text(b.owner));
    lemma_same_rest("target="@, target_text(a.target), target_text(b.target));
    lemma_target_injective(a.target, b.target);
    assert(a.text =~= b.text) by {
        assert forall|i: int| 0 <= i < n implies a.text[i] == b.text[i] by {
            assert(all[3 + i] == text_line(a.text[i]));
            assert(all[3 + i] == text_line(b.text[i]));
            assert(entry_spelled(a.text[i]) && entry_spelled(b.text[i]));
            lemma_entry_injective(a.text[i], b.text[i]);
        }
    }
    lemma_same_rest(
        "created_ns="@,
        decimal(a.created_ns as nat),
        decimal(b.created_ns as nat),
    );
    lemma_decimal_injective(a.created_ns as nat, b.created_ns as nat);
    lemma_same_rest(
        "updated_ns="@,
        decimal(a.updated_ns as nat),
        decimal(b.updated_ns as nat),
    );
    lemma_decimal_injective(a.updated_ns as nat, b.updated_ns as nat);
    lemma_same_rest(
        "changed_hands_ns="@,
        decimal(a.changed_hands_ns as nat),
        decimal(b.changed_hands_ns as nat),
    );
    lemma_decimal_injective(a.changed_hands_ns as nat, b.changed_hands_ns as nat);
    let p = previous_lines(a).len() as int;
    assert(p == previous_lines(b).len() && flat_lines(a).len() == flat_lines(b).len());
    if p == 1 {
        assert(all[6 + n + 0] == previous_lines(a)[0]);
        assert(all[6 + n + 0] == previous_lines(b)[0]);
        lemma_same_rest(
            "previous_target="@,
            target_text(a.previous_target->0),
            target_text(b.previous_target->0),
        );
        lemma_target_injective(a.previous_target->0, b.previous_target->0);
    }
    if a.flat is Some {
        let (g, h) = (a.flat->0, b.flat->0);
        assert(all[6 + n + p + 0] == flat_lines(a)[0] && all[6 + n + p + 0] == flat_lines(b)[0]);
        assert(all[6 + n + p + 1] == flat_lines(a)[1] && all[6 + n + p + 1] == flat_lines(b)[1]);
        assert(all[6 + n + p + 2] == flat_lines(a)[2] && all[6 + n + p + 2] == flat_lines(b)[2]);
        assert(all[6 + n + p + 3] == flat_lines(a)[3] && all[6 + n + p + 3] == flat_lines(b)[3]);
        lemma_same_rest("price="@, decimal(g.price as nat), decimal(h.price as nat));
        lemma_decimal_injective(g.price as nat, h.price as nat);
        lemma_same_rest("balance="@, decimal(g.balance as nat), decimal(h.balance as nat));
        lemma_decimal_injective(g.balance as nat, h.balance as nat);
        lemma_same_rest("settled_ns="@, decimal(g.settled_ns as nat), decimal(h.settled_ns as nat));
        lemma_decimal_injective(g.settled_ns as nat, h.settled_ns as nat);
        lemma_same_rest("lapsed_ns="@, lapse_text(g.lapsed_ns), lapse_text(h.lapsed_ns));
        lemma_lapse_injective(g.lapsed_ns, h.lapsed_ns);
        assert(a.flat == b.flat);
    }
}

// --- where legible records come from ------------------------------------------------------------

/// A record whose principals are all written on one line and read back.
pub open spec fn principals_spelled(r: RecordState) -> bool {
    &&& spelled(r.owner)
    &&& r.target matches TargetState::Address(p) ==> spelled(p)
    &&& r.previous_target matches Some(TargetState::Address(p)) ==> spelled(p)
}

/// The characters of a principal's text hold no line break.
pub proof fn lemma_principal_one_line(s: Seq<char>)
    requires
        principal_chars(s),
    ensures
        one_line(s),
{
    if s.contains('\n') {
        let i = choose|i: int| 0 <= i < s.len() && s[i] == '\n';
        assert('a' <= s[i] <= 'z' || '2' <= s[i] <= '7' || s[i] == '-');
    }
}

/// A name in the grammar is one line.
proof fn lemma_segments_one_line(s: Seq<char>)
    requires
        forall|i: int| 0 <= i < s.len() ==> segment_char(#[trigger] s[i]) || s[i] == '/',
    ensures
        one_line(s),
{
    if s.contains('\n') {
        let i = choose|i: int| 0 <= i < s.len() && s[i] == '\n';
        assert(segment_char(s[i]) || s[i] == '/');
    }
}

/// A scoped name is one line.
proof fn lemma_scoped_one_line(s: Seq<char>)
    requires
        is_scoped_name(s),
    ensures
        one_line(s),
{
    lemma_find(s, '/');
    let k = find(s, '/');
    assert forall|i: int| 0 <= i < s.len() implies segment_char(#[trigger] s[i]) || s[i]
        == '/' by {
        if i < k {
            assert(handle_of(s)[i] == s[i]);
        } else if i > k {
            assert(label_of(s)[i - k - 1] == s[i]);
        }
    }
    lemma_segments_one_line(s);
}

/// Every record of a sound registry is legible.
pub proof fn law_good_records_are_legible(
    handles: Map<Seq<char>, HandleState>,
    name: Seq<char>,
    r: RecordState,
)
    ensures
        good_record(handles, name, r) && principals_spelled(r) ==> legible(r),
{
    if good_record(handles, name, r) && principals_spelled(r) {
        if name.contains('/') {
            lemma_scoped_one_line(name);
        } else {
            assert forall|i: int| 0 <= i < name.len() implies segment_char(#[trigger] name[i])
                || name[i] == '/' by {}
            lemma_segments_one_line(name);
        }
        match r.target {
            TargetState::Alias(to) => lemma_scoped_one_line(to),
            _ => {},
        }
        match r.previous_target {
            Some(TargetState::Alias(to)) => lemma_scoped_one_line(to),
            _ => {},
        }
        assert forall|i: int| 0 <= i < r.text.len() implies entry_spelled(
            #[trigger] r.text[i],
        ) by {
            let e = r.text[i];
            assert(good_entry(e));
            if e.0.contains('\n') {
                let k = choose|k: int| 0 <= k < e.0.len() && e.0[k] == '\n';
                assert(key_char(e.0[k]));
            }
            if e.0.contains('=') {
                let k = choose|k: int| 0 <= k < e.0.len() && e.0[k] == '=';
                assert(key_char(e.0[k]));
            }
            if e.1.contains('\n') {
                let k = choose|k: int| 0 <= k < e.1.len() && e.1[k] == '\n';
                assert(!is_control(e.1[k]));
            }
        }
    }
}

} // verus!
