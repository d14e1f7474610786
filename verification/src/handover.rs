//! Names that changed hands: the date, and the page that warns of it.

use vstd::prelude::*;

use crate::harberger::ConfigState;
use crate::market::{is_bought, is_claimed, is_repriced, BuyState, ClaimState};
use crate::names::is_scoped_name;
use crate::principal::principal_text;
use crate::record::{Record, RecordState, Target, TargetState};
use crate::registry::{good_record, is_pointed, sound, RegistryState};
use crate::text::{decimal, decimal_text, join2, join3, occurs};

verus! {

// --- dates --------------------------------------------------------------------------------

/// Nanoseconds in a day.
pub const DAY_NS: u64 = 86_400_000_000_000;

/// A day of the calendar.
#[derive(Debug, PartialEq, Eq, Clone, Copy)]
pub struct Date {
    pub year: u32,
    pub month: u32,
    pub day: u32,
}

/// Whether a year has 366 days.
pub open spec fn is_leap(year: int) -> bool {
    year % 4 == 0 && (year % 100 != 0 || year % 400 == 0)
}

/// The days of a year.
pub open spec fn year_days(year: int) -> int {
    if is_leap(year) {
        366
    } else {
        365
    }
}

/// The days of a month.
pub open spec fn month_days(year: int, month: int) -> int {
    if month == 2 {
        if is_leap(year) {
            29
        } else {
            28
        }
    } else if month == 4 || month == 6 || month == 9 || month == 11 {
        30
    } else {
        31
    }
}

/// The year that a day stands in, and which day of it, counted from 0,
/// where day 0 is the first of `year`.
pub open spec fn year_from(year: int, days: int) -> (int, int)
    decreases days,
{
    if days < year_days(year) {
        (year, days)
    } else {
        year_from(year + 1, days - year_days(year))
    }
}

/// The month that a day stands in, and which day of it, counted from 0,
/// where day 0 is the first of `month`.
pub open spec fn month_from(year: int, month: int, days: int) -> (int, int)
    decreases 12 - month,
{
    if month >= 12 || days < month_days(year, month) {
        (month, days)
    } else {
        month_from(year, month + 1, days - month_days(year, month))
    }
}

/// The date of a moment, in nanoseconds since 1970.
pub open spec fn date_of(ns: u64) -> Date {
    let (year, left) = year_from(1970, ns as int / DAY_NS as int);
    let (month, day) = month_from(year, 1, left);
    Date { year: year as u32, month: month as u32, day: (day + 1) as u32 }
}

/// Whether a year has 366 days.
fn leap(year: u32) -> (r: bool)
    ensures
        r == is_leap(year as int),
{
    year % 4 == 0 && (year % 100 != 0 || year % 400 == 0)
}

/// The days of a month.
fn days_in_month(year: u32, month: u32) -> (r: u64)
    ensures
        r == month_days(year as int, month as int),
{
    if month == 2 {
        if leap(year) {
            29
        } else {
            28
        }
    } else if month == 4 || month == 6 || month == 9 || month == 11 {
        30
    } else {
        31
    }
}

/// The date of a moment, in nanoseconds since 1970.
pub fn date_at(ns: u64) -> (r: Date)
    ensures
        r == date_of(ns),
{
    let total: u64 = ns / DAY_NS;
    let mut left: u64 = total;
    let mut year: u32 = 1970;
    let mut size: u64 = if leap(year) {
        366
    } else {
        365
    };
    while left >= size
        invariant
            total <= 213_503,
            left <= total,
            size == year_days(year as int),
            year - 1970 <= total - left,
            year_from(1970, total as int) == year_from(year as int, left as int),
        decreases left,
    {
        left -= size;
        year += 1;
        size = if leap(year) {
            366
        } else {
            365
        };
    }
    let ghost rest = left;
    let mut month: u32 = 1;
    while month < 12 && left >= days_in_month(year, month)
        invariant
            1 <= month <= 12,
            left <= rest,
            rest < 366,
            month_from(year as int, 1, rest as int) == month_from(
                year as int,
                month as int,
                left as int,
            ),
        decreases 12 - month,
    {
        left -= days_in_month(year, month);
        month += 1;
    }
    assert(year_from(1970, total as int) == (year as int, rest as int));
    assert(month_from(year as int, 1, rest as int) == (month as int, left as int));
    Date { year, month, day: left as u32 + 1 }
}

/// The days from the start of 1970 to the start of a year.
pub open spec fn days_before_year(year: int) -> int
    decreases year,
{
    if year <= 1970 {
        0
    } else {
        days_before_year(year - 1) + year_days(year - 1)
    }
}

/// The days of a year before a month.
pub open spec fn days_before_month(year: int, month: int) -> int
    decreases month,
{
    if month <= 1 {
        0
    } else {
        days_before_month(year, month - 1) + month_days(year, month - 1)
    }
}

proof fn lemma_year_from(year: int, days: int)
    requires
        year >= 1970,
        days >= 0,
    ensures
        ({
            let (y, left) = year_from(year, days);
            &&& year <= y <= year + days
            &&& 0 <= left < year_days(y)
            &&& days_before_year(y) + left == days_before_year(year) + days
        }),
    decreases days,
{
    if days >= year_days(year) {
        lemma_year_from(year + 1, days - year_days(year));
    }
}

proof fn lemma_month_from(year: int, month: int, days: int)
    requires
        1 <= month <= 12,
        0 <= days < year_days(year) - days_before_month(year, month),
    ensures
        ({
            let (m, left) = month_from(year, month, days);
            &&& month <= m <= 12
            &&& 0 <= left < month_days(year, m)
            &&& days_before_month(year, m) + left == days_before_month(year, month) + days
        }),
    decreases 12 - month,
{
    if month < 12 && days >= month_days(year, month) {
        lemma_month_from(year, month + 1, days - month_days(year, month));
    } else {
        reveal_with_fuel(days_before_month, 13);
    }
}

/// The date of a moment is the day of the calendar that it falls on: a day
/// that its month has, as many days after the start of 1970 as have passed.
pub proof fn law_date_is_the_day(ns: u64)
    ensures
        ({
            let d = date_of(ns);
            &&& 1 <= d.month <= 12
            &&& 1 <= d.day <= month_days(d.year as int, d.month as int)
            &&& days_before_year(d.year as int) + days_before_month(d.year as int, d.month as int)
                + d.day - 1 == ns as int / 86_400_000_000_000
        }),
{
    let days = ns as int / DAY_NS as int;
    lemma_year_from(1970, days);
    let (year, left) = year_from(1970, days);
    assert(days_before_month(year, 1) == 0);
    lemma_month_from(year, 1, left);
}

/// The calendar is the Gregorian one: a year that 4 divides has a 29th of
/// February, except a century year that 400 does not divide.
pub proof fn law_calendar_is_gregorian(year: int)
    ensures
        month_days(year, 2) == 28 || month_days(year, 2) == 29,
        month_days(year, 2) == 29 <==> (year % 4 == 0 && year % 100 != 0) || year % 400 == 0,
        year_days(year) == 337 + month_days(year, 2),
        month_days(year, 1) == 31 && month_days(year, 3) == 31 && month_days(year, 4) == 30,
        month_days(year, 5) == 31 && month_days(year, 6) == 30 && month_days(year, 7) == 31,
        month_days(year, 8) == 31 && month_days(year, 9) == 30 && month_days(year, 10) == 31,
        month_days(year, 11) == 30 && month_days(year, 12) == 31,
{
}

/// A number below 100 in two digits.
pub open spec fn two_digits(n: nat) -> Seq<char> {
    if n < 10 {
        "0"@ + decimal(n)
    } else {
        decimal(n)
    }
}

/// A date as text: year, month and day, with hyphens.
pub open spec fn date_text(d: Date) -> Seq<char> {
    decimal(d.year as nat) + "-"@ + two_digits(d.month as nat) + "-"@ + two_digits(d.day as nat)
}

/// A number below 100 in two digits.
fn padded(n: u32) -> (r: String)
    ensures
        r@ == two_digits(n as nat),
{
    if n < 10 {
        join2("0", decimal_text(n as u128).as_str())
    } else {
        decimal_text(n as u128)
    }
}

impl Date {
    /// The date as text: year, month and day, with hyphens.
    pub fn to_text(&self) -> (r: String)
        ensures
            r@ == date_text(*self),
    {
        let mut out = join3(
            decimal_text(self.year as u128).as_str(),
            "-",
            padded(self.month).as_str(),
        );
        out.append("-");
        out.append(padded(self.day).as_str());
        out
    }
}

// --- the warning --------------------------------------------------------------------------------

/// Where a canister is reached.
pub open spec fn canister_url(canister: Seq<u8>) -> Seq<char> {
    "https://"@ + principal_text(canister) + ".icp0.io/"@
}

/// How a target is called.
pub open spec fn target_label(t: TargetState) -> Seq<char> {
    match t {
        TargetState::Address(p) => principal_text(p),
        TargetState::Alias(n) => n,
    }
}

/// Where a target is reached: a canister at its own address, a name through
/// this gateway.
pub open spec fn target_link(t: TargetState) -> Seq<char> {
    match t {
        TargetState::Address(p) => canister_url(p),
        TargetState::Alias(n) => "/"@ + n,
    }
}

/// Whether a record is a flat name that changed hands so recently that
/// visitors are warned.
pub open spec fn warns(c: ConfigState, r: RecordState, now: u64) -> bool {
    &&& r.flat is Some
    &&& r.previous_target is Some
    &&& now < r.changed_hands_ns + c.handover_warn_ns
}

/// A link in HTML.
pub open spec fn link_html(t: TargetState) -> Seq<char> {
    "<a href=\""@ + target_link(t) + "\">"@ + target_label(t) + "</a>"@
}

/// The page that warns of a name that changed hands: the date, the old
/// target and the new one, with links to both.
pub open spec fn handover_page(r: RecordState) -> Seq<char> {
    "<!doctype html>\n<title>"@ + r.name + " changed hands</title>\n<p>"@ + r.name
        + " changed hands on "@ + date_text(date_of(r.changed_hands_ns)) + ".</p>\n<p>Before: "@
        + link_html(r.previous_target->0) + "</p>\n<p>Now: "@ + link_html(r.target) + "</p>\n"@
}

/// The same warning in one line.
pub open spec fn handover_note(r: RecordState) -> Seq<char> {
    r.name + " changed hands on "@ + date_text(date_of(r.changed_hands_ns)) + ": it was "@
        + target_label(r.previous_target->0) + " and is now "@ + target_label(r.target)
}

/// How a target is called.
fn label(t: &Target) -> (r: String)
    ensures
        r@ == target_label(t@),
{
    match t {
        Target::Address(p) => p.to_text(),
        Target::Alias(n) => n.clone(),
    }
}

/// A link in HTML.
fn link(t: &Target) -> (r: String)
    ensures
        r@ == link_html(t@),
{
    let to = match t {
        Target::Address(p) => join3("https://", p.to_text().as_str(), ".icp0.io/"),
        Target::Alias(n) => join2("/", n.as_str()),
    };
    let mut out = join3("<a href=\"", to.as_str(), "\">");
    out.append(label(t).as_str());
    out.append("</a>");
    out
}

/// The page that warns of a name that changed hands, None where it never
/// did.
pub fn page(r: &Record) -> (p: Option<String>)
    ensures
        p is Some <==> r@.previous_target is Some,
        p matches Some(s) ==> s@ == handover_page(r@),
{
    match &r.previous_target {
        None => None,
        Some(old_target) => {
            let mut out = join3(
                "<!doctype html>\n<title>",
                r.name.as_str(),
                " changed hands</title>\n<p>",
            );
            out.append(r.name.as_str());
            out.append(" changed hands on ");
            out.append(date_at(r.changed_hands_ns).to_text().as_str());
            out.append(".</p>\n<p>Before: ");
            out.append(link(old_target).as_str());
            out.append("</p>\n<p>Now: ");
            out.append(link(&r.target).as_str());
            out.append("</p>\n");
            Some(out)
        },
    }
}

/// The same warning in one line, None where the name never changed hands.
pub fn note(r: &Record) -> (p: Option<String>)
    ensures
        p is Some <==> r@.previous_target is Some,
        p matches Some(s) ==> s@ == handover_note(r@),
{
    match &r.previous_target {
        None => None,
        Some(old_target) => {
            let mut out = join2(r.name.as_str(), " changed hands on ");
            out.append(date_at(r.changed_hands_ns).to_text().as_str());
            out.append(": it was ");
            out.append(label(old_target).as_str());
            out.append(" and is now ");
            out.append(label(&r.target).as_str());
            Some(out)
        },
    }
}

// --- what the warning promises --------------------------------------------------------------------

/// Text between other texts occurs in the whole.
proof fn lemma_occurs(front: Seq<char>, middle: Seq<char>, back: Seq<char>)
    ensures
        occurs(middle, front + middle + back),
{
    let all = front + middle + back;
    let at = front.len() as int;
    assert(all.subrange(at, at + middle.len()) =~= middle);
}

/// The address of a target: a canister's own, or a name's at this gateway.
pub open spec fn address_of(t: TargetState) -> Seq<char> {
    match t {
        TargetState::Address(p) => "https://"@ + principal_text(p) + ".icp0.io/"@,
        TargetState::Alias(n) => "/"@ + n,
    }
}

/// What a target is shown as: a canister's principal, or a name.
pub open spec fn shown_as(t: TargetState) -> Seq<char> {
    match t {
        TargetState::Address(p) => principal_text(p),
        TargetState::Alias(n) => n,
    }
}

/// The warning says when the name changed hands, and links where it led
/// before, as that, and where it leads now, as that.
pub proof fn law_warning_shows_both_targets(r: RecordState)
    requires
        r.previous_target is Some,
    ensures
        ({
            let was = r.previous_target->0;
            let when = date_text(date_of(r.changed_hands_ns));
            let page = handover_page(r);
            &&& occurs(r.name + " changed hands on "@ + when, page)
            &&& occurs(
                "Before: "@ + "<a href=\""@ + address_of(was) + "\">"@ + shown_as(was) + "</a>"@,
                page,
            )
            &&& occurs(
                "Now: "@ + "<a href=\""@ + address_of(r.target) + "\">"@ + shown_as(r.target)
                    + "</a>"@,
                page,
            )
            &&& handover_note(r) == r.name + " changed hands on "@ + when + ": it was "@ + shown_as(
                was,
            ) + " and is now "@ + shown_as(r.target)
        }),
{
    let was = r.previous_target->0;
    let when = date_text(date_of(r.changed_hands_ns));
    let page = handover_page(r);
    let (before, now) = (link_html(was), link_html(r.target));
    reveal_strlit(".</p>\n<p>Before: ");
    reveal_strlit(".</p>\n<p>");
    reveal_strlit("Before: ");
    reveal_strlit("</p>\n<p>Now: ");
    reveal_strlit("</p>\n<p>");
    reveal_strlit("Now: ");
    assert(".</p>\n<p>Before: "@ =~= ".</p>\n<p>"@ + "Before: "@);
    assert("</p>\n<p>Now: "@ =~= "</p>\n<p>"@ + "Now: "@);
    let top = "<!doctype html>\n<title>"@ + r.name + " changed hands</title>\n<p>"@;
    let dated = r.name + " changed hands on "@ + when;
    let old_line = "Before: "@ + before;
    let new_line = "Now: "@ + now;
    assert(old_line =~= "Before: "@ + "<a href=\""@ + address_of(was) + "\">"@ + shown_as(was)
        + "</a>"@);
    assert(new_line =~= "Now: "@ + "<a href=\""@ + address_of(r.target) + "\">"@ + shown_as(
        r.target,
    ) + "</a>"@);
    let tail = "</p>\n<p>"@ + new_line + "</p>\n"@;
    lemma_occurs(top, dated, ".</p>\n<p>"@ + old_line + tail);
    assert(page =~= top + dated + (".</p>\n<p>"@ + old_line + tail));
    lemma_occurs(top + dated + ".</p>\n<p>"@, old_line, tail);
    assert(page =~= top + dated + ".</p>\n<p>"@ + old_line + tail);
    let head = top + dated + ".</p>\n<p>"@ + old_line + "</p>\n<p>"@;
    lemma_occurs(head, new_line, "</p>\n"@);
    assert(page =~= head + new_line + "</p>\n"@);
}

/// A name that was bought warns its visitors for as long as is configured,
/// from the moment it changed hands, and no longer.
pub proof fn law_bought_names_warn_for_a_while(
    s: RegistryState,
    t: RegistryState,
    b: BuyState,
    now: u64,
    c: ConfigState,
    later: u64,
)
    requires
        is_bought(s, t, b, now),
    ensures
        warns(c, t.store.records[b.name], later) <==> later < now + c.handover_warn_ns,
{
}

/// So does a lapsed name that was claimed; one that had no record before has
/// nothing to warn of.
pub proof fn law_claimed_names_warn_where_they_lapsed(
    s: RegistryState,
    t: RegistryState,
    claim: ClaimState,
    now: u64,
    c: ConfigState,
    later: u64,
)
    requires
        is_claimed(s, t, claim, now),
    ensures
        warns(c, t.store.records[claim.name], later) <==> s.store.records.contains_key(claim.name)
            && later < now + c.handover_warn_ns,
{
}

/// What a holder does with the name changes nothing about the warning:
/// neither a new price nor a new target takes it back or brings it on.
pub proof fn law_holders_cannot_hide_a_handover(
    s: RegistryState,
    t: RegistryState,
    u: RegistryState,
    caller: Seq<u8>,
    name: Seq<char>,
    price: u128,
    target: TargetState,
    now: u64,
    c: ConfigState,
    later: u64,
)
    requires
        s.store.records.contains_key(name),
        is_repriced(s, t, name, price, now),
        is_pointed(s, u, caller, name, target, now),
    ensures
        warns(c, t.store.records[name], later) == warns(c, s.store.records[name], later),
        warns(c, u.store.records[name], later) == warns(c, s.store.records[name], later),
{
}

/// A scoped name never warns.
pub proof fn law_scoped_names_never_warn(
    s: RegistryState,
    name: Seq<char>,
    c: ConfigState,
    now: u64,
)
    requires
        sound(s),
        s.store.records.contains_key(name),
        is_scoped_name(name),
    ensures
        !warns(c, s.store.records[name], now),
{
    assert(good_record(s.store.handles, name, s.store.records[name]));
}

/// A date is written as year, month and day with hyphens, the last two in
/// two digits that read back as the numbers.
pub proof fn law_dates_read_back(n: nat)
    requires
        n < 100,
    ensures
        two_digits(n).len() == 2,
        crate::text::digits_value(two_digits(n)) == n,
{
    crate::text::lemma_decimal_value(n);
    reveal_strlit("0");
    let t = two_digits(n);
    reveal_with_fuel(decimal, 3);
    reveal_with_fuel(crate::text::digits_value, 3);
    if n < 10 {
        assert(t =~= seq!['0', crate::text::digit(n)]);
        assert(t.drop_last() =~= seq!['0']);
        assert(seq!['0'].drop_last() =~= Seq::<char>::empty());
    }
}

} // verus!
