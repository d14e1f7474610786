//! HTTP gateway, stage 1: path based, fully on chain.
//!
//!   GET /<name>                        302 to https://<canister>.icp0.io/
//!   GET /api/resolve/<name>            the certified answer as JSON
//!   GET /api/search?q=&tag=&offset=&limit=   directory search as JSON
//!   GET /api/tags                      tags in use with counts
//!   GET /api/expiring?days=N           flat names running out within N days
//!   GET /                              a short usage page
//!
//! Where there is a certificate to give, which is so in every query on the
//! IC, a response carries the skip-certification headers and a verifying
//! gateway accepts it as it is. Where there is none, the routes that need no
//! query context ask to be upgraded to an update call instead. The resolve
//! answer never does: it carries its own proof, which only a query can give.

use vstd::prelude::*;
use vstd::utf8::*;

use crate::certify;
use crate::certify::{base64_text, http_header_list, witness_shape};
use crate::directory;
use crate::directory::{
    capped_count, counts_carriers, counts_tags, found, hit_of, in_step,
    law_search_finds_what_is_asked, lists_asked, page, page_limit, page_offset, HitState,
    QueryState, SearchQuery, TagCount,
};
use crate::handover;
use crate::handover::{
    address_of, canister_url, handover_page, law_warning_shows_both_targets, shown_as, warns,
    DAY_NS,
};
use crate::harberger;
use crate::hashtree::tree_cbor;
use crate::holdings::{
    by_deadline, expiring_inner, expiring_list, law_expiring_lists_what_runs_out, lists_expiring,
    ExpiringState,
};
use crate::json::{
    json_expiring, json_hit, json_lines, json_record, json_resolved, json_search,
    law_json_rebuilds_the_canonical_form, JsonExpiring, JsonResolved, JsonSearch, JsonSearchState,
};
use crate::maps::{values_in_order, views};
use crate::names::{
    handle_of, is_flat_name, is_scoped_name, label_of, lemma_segment_no_slash,
};
use crate::order::texts_in_order;
use crate::principal::principal_text;
use crate::record::{canonical_text, text_value, unlines, RecordState};
use crate::registry::Registry;
use crate::resolve::{
    chain_names, follow, keyed_by_name, law_held_chain_resolves, law_resolution_leads, leads,
    resolution,
};
use crate::store::StoreState;
use crate::tax::capped_ns;
use crate::text::{
    after_prefix, begins, chars_of, count, decimal, find, find_from, join2, join3, lemma_find, lemma_find_is,
    lossy_text, number, occurs, pairs, parse_count, parse_number, pieces, same_text, seen,
    split_text, strip_back, strip_front, text_from_utf8_lossy, text_of, texts, trim_back,
    trim_front,
};

verus! {

/// A request.
#[derive(Debug)]
pub struct HttpRequest {
    pub method: String,
    pub url: String,
    pub headers: Vec<(String, String)>,
    pub body: Vec<u8>,
}

/// What a response says: a text, or the contents of a JSON answer.
#[derive(Debug, PartialEq, Eq)]
pub enum Body {
    Text(String),
    Resolved(JsonResolved),
    Failed(String),
    Search(JsonSearch),
    Tags(Vec<TagCount>),
    Expiring(Vec<JsonExpiring>),
}

/// A response.
#[derive(Debug, PartialEq, Eq)]
pub struct HttpResponse {
    pub status_code: u16,
    pub headers: Vec<(String, String)>,
    pub body: Body,
    /// Some(true) asks the gateway to repeat the request as an update call.
    pub upgrade: Option<bool>,
}

// --- URLs -----------------------------------------------------------------------------------

/// The path of a URL: what stands before its query string and fragment.
pub open spec fn url_path(url: Seq<char>) -> Seq<char> {
    let (q, f) = (find(url, '?'), find(url, '#'));
    url.take(
        if q <= f {
            q
        } else {
            f
        },
    )
}

/// Path without query string or fragment.
pub fn path_of(url: &str) -> (r: String)
    ensures
        r@ == url_path(url@),
{
    let chars = chars_of(url);
    let q: usize = find_from(&chars, 0, '?');
    let f: usize = find_from(&chars, 0, '#');
    assert(chars@.skip(0) =~= url@);
    let end: usize = if q <= f {
        q
    } else {
        f
    };
    let r = text_of(&chars, 0, end);
    assert(r@ =~= url@.take(end as int));
    r
}

/// The value of a hex digit.
pub open spec fn hex_value(b: u8) -> Option<u8> {
    if 48 <= b <= 57 {
        Some((b - 48) as u8)
    } else if 97 <= b <= 102 {
        Some((b - 87) as u8)
    } else if 65 <= b <= 70 {
        Some((b - 55) as u8)
    } else {
        None
    }
}

/// The value of a hex digit.
fn hex_digit(b: u8) -> (r: Option<u8>)
    ensures
        r == hex_value(b),
{
    if 48 <= b && b <= 57 {
        Some(b - 48)
    } else if 97 <= b && b <= 102 {
        Some(b - 87)
    } else if 65 <= b && b <= 70 {
        Some(b - 55)
    } else {
        None
    }
}

/// Whether bytes begin with a percent sign and two hex digits.
pub open spec fn escaped(b: Seq<u8>) -> bool {
    b.len() > 2 && b[0] == 37 && hex_value(b[1]) is Some && hex_value(b[2]) is Some
}

/// Bytes with '+' for a space and every percent escape resolved.
pub open spec fn unescaped(b: Seq<u8>) -> Seq<u8>
    decreases b.len(),
{
    if b.len() == 0 {
        Seq::empty()
    } else if b[0] == 43 {
        seq![32u8] + unescaped(b.skip(1))
    } else if escaped(b) {
        seq![(hex_value(b[1])->0 * 16 + hex_value(b[2])->0) as u8] + unescaped(b.skip(3))
    } else {
        seq![b[0]] + unescaped(b.skip(1))
    }
}

/// A text of a query string as it was meant.
pub open spec fn decoded(s: Seq<char>) -> Seq<char> {
    lossy_text(unescaped(encode_utf8(s)))
}

/// Resolve the escapes of a query string. A '%' without two hex digits
/// behind it stands for itself.
pub fn percent_decode(s: &str) -> (r: String)
    ensures
        r@ == decoded(s@),
        valid_utf8(unescaped(encode_utf8(s@))) ==> r@ == decode_utf8(
            unescaped(encode_utf8(s@)),
        ),
{
    let bytes = s.as_bytes();
    let ghost all = encode_utf8(s@);
    let mut out: Vec<u8> = Vec::new();
    let mut i: usize = 0;
    proof {
        assert(bytes@ == all);
        assert(all.skip(0) =~= all);
        assert(out@ + unescaped(all) =~= unescaped(all));
    }
    while i < bytes.len()
        invariant
            i <= bytes@.len(),
            bytes@ == all,
            out@ + unescaped(all.skip(i as int)) == unescaped(all),
        decreases bytes.len() - i,
    {
        let ghost rest = all.skip(i as int);
        let ghost before = out@;
        let b: u8 = bytes[i];
        proof {
            assert(rest.len() == all.len() - i);
            assert(rest[0] == b);
        }
        if b == 43 {
            out.push(32);
            assert(rest.skip(1) =~= all.skip(i + 1));
            assert(out@ + unescaped(rest.skip(1)) =~= before + unescaped(rest));
            i += 1;
        } else if b == 37 && bytes.len() - i > 2 {
            assert(rest[1] == all[i + 1] && rest[2] == all[i + 2]);
            match (hex_digit(bytes[i + 1]), hex_digit(bytes[i + 2])) {
                (Some(hi), Some(lo)) => {
                    out.push(hi * 16 + lo);
                    assert(rest.skip(3) =~= all.skip(i + 3));
                    assert(out@ + unescaped(rest.skip(3)) =~= before + unescaped(rest));
                    i += 3;
                },
                _ => {
                    out.push(37);
                    assert(rest.skip(1) =~= all.skip(i + 1));
                    assert(out@ + unescaped(rest.skip(1)) =~= before + unescaped(rest));
                    i += 1;
                },
            }
        } else {
            out.push(b);
            assert(rest.skip(1) =~= all.skip(i + 1));
            assert(out@ + unescaped(rest.skip(1)) =~= before + unescaped(rest));
            i += 1;
        }
    }
    proof {
        assert(all.skip(i as int) =~= Seq::<u8>::empty());
        assert(out@ =~= unescaped(all));
    }
    text_from_utf8_lossy(out.as_slice())
}

/// One parameter of a query string: the key before the first '=', the value
/// behind it.
pub open spec fn parameter(p: Seq<char>) -> (Seq<char>, Seq<char>) {
    let i = find(p, '=');
    if i < p.len() {
        (decoded(p.take(i)), decoded(p.skip(i + 1)))
    } else {
        (decoded(p), decoded(Seq::empty()))
    }
}

/// The parameters in the pieces of a query string; an empty piece is none.
pub open spec fn parameters(pieces: Seq<Seq<char>>) -> Seq<(Seq<char>, Seq<char>)>
    decreases pieces.len(),
{
    if pieces.len() == 0 {
        Seq::empty()
    } else {
        let rest = parameters(pieces.drop_last());
        if pieces.last().len() == 0 {
            rest
        } else {
            rest.push(parameter(pieces.last()))
        }
    }
}

/// The parameters of a URL.
pub open spec fn url_parameters(url: Seq<char>) -> Seq<(Seq<char>, Seq<char>)> {
    let (start, end) = (find(url, '?'), find(url, '#'));
    if start >= url.len() || end <= start {
        Seq::empty()
    } else {
        parameters(pieces(url.subrange(start + 1, end), '&'))
    }
}

/// One parameter of a query string.
fn read_parameter(p: &str) -> (r: (String, String))
    ensures
        (r.0@, r.1@) == parameter(p@),
{
    let chars = chars_of(p);
    let i: usize = find_from(&chars, 0, '=');
    assert(chars@.skip(0) =~= p@);
    if i < chars.len() {
        let key = text_of(&chars, 0, i);
        let value = text_of(&chars, i + 1, chars.len());
        assert(key@ =~= p@.take(i as int));
        assert(value@ =~= p@.skip(i + 1));
        (percent_decode(key.as_str()), percent_decode(value.as_str()))
    } else {
        let none = String::new();
        assert(none@ =~= Seq::<char>::empty());
        (percent_decode(p), percent_decode(none.as_str()))
    }
}

/// Query string parameters, percent-decoded, in their order.
pub fn query_of(url: &str) -> (r: Vec<(String, String)>)
    ensures
        pairs(r@) == url_parameters(url@),
{
    let mut out: Vec<(String, String)> = Vec::new();
    let chars = chars_of(url);
    let start: usize = find_from(&chars, 0, '?');
    let end: usize = find_from(&chars, 0, '#');
    proof {
        assert(chars@.skip(0) =~= url@);
        assert(pairs(out@) =~= Seq::<(Seq<char>, Seq<char>)>::empty());
    }
    if start >= chars.len() || end <= start {
        return out;
    }
    let query = text_of(&chars, start + 1, end);
    let parts = split_text(query.as_str(), '&');
    let ghost all = pieces(query@, '&');
    let mut i: usize = 0;
    assert(all.take(0) =~= Seq::<Seq<char>>::empty());
    while i < parts.len()
        invariant
            i <= parts@.len(),
            texts(parts@) == all,
            pairs(out@) == parameters(all.take(i as int)),
        decreases parts.len() - i,
    {
        let ghost before = out@;
        proof {
            assert(all.take(i + 1).drop_last() =~= all.take(i as int));
            assert(all.take(i + 1).last() == parts@[i as int]@);
        }
        let n: usize = chars_of(parts[i].as_str()).len();
        if n > 0 {
            out.push(read_parameter(parts[i].as_str()));
            assert(pairs(out@) =~= pairs(before).push(parameter(all[i as int])));
        }
        i += 1;
    }
    assert(all.take(i as int) =~= all);
    out
}

/// The value of a parameter; its first occurrence wins.
pub fn param<'a>(params: &'a Vec<(String, String)>, key: &str) -> (r: Option<&'a str>)
    ensures
        seen(r) == text_value(pairs(params@), key@),
{
    let ghost all = pairs(params@);
    let mut i: usize = 0;
    assert(all.skip(0) =~= all);
    while i < params.len()
        invariant
            i <= params@.len(),
            all == pairs(params@),
            text_value(all, key@) == text_value(all.skip(i as int), key@),
        decreases params.len() - i,
    {
        let ghost rest = all.skip(i as int);
        assert(rest[0] == (params@[i as int].0@, params@[i as int].1@));
        if same_text(params[i].0.as_str(), key) {
            return Some(params[i].1.as_str());
        }
        assert(rest.drop_first() =~= all.skip(i + 1));
        i += 1;
    }
    None
}

// --- responses ---------------------------------------------------------------------------------

/// The headers of a response: its type, that it is not to be cached, the
/// certification where there is a certificate to give, and what a route
/// adds.
pub open spec fn header_list(
    content_type: Seq<char>,
    certification: Seq<(Seq<char>, Seq<char>)>,
    more: Seq<(Seq<char>, Seq<char>)>,
) -> Seq<(Seq<char>, Seq<char>)> {
    seq![("Content-Type"@, content_type), ("Cache-Control"@, "no-cache"@)] + certification + more
}

/// What a request is answered in: the certificate if there is one to give,
/// whether the call is an update already, and the time.
pub struct Context {
    pub certificate: Option<Vec<u8>>,
    pub in_update: bool,
    pub now: u64,
}

/// The certification headers of a response.
pub open spec fn certification(reg: Registry, cx: Context) -> Seq<(Seq<char>, Seq<char>)> {
    match cx.certificate {
        Some(c) => http_header_list(c@, reg.tree.shape()),
        None => Seq::empty(),
    }
}

/// Whether a response asks for an update call.
pub open spec fn upgrade_of(cx: Context, ask: bool) -> Option<bool> {
    if ask && !cx.in_update && cx.certificate is None {
        Some(true)
    } else {
        None
    }
}

/// Whether `r` is the response with this status, type and further headers.
pub open spec fn framed(
    r: HttpResponse,
    reg: Registry,
    cx: Context,
    status_code: u16,
    content_type: Seq<char>,
    ask: bool,
    more: Seq<(Seq<char>, Seq<char>)>,
) -> bool {
    &&& r.status_code == status_code
    &&& pairs(r.headers@) == header_list(content_type, certification(reg, cx), more)
    &&& r.upgrade == upgrade_of(cx, ask)
}

/// A response with its frame.
fn response(
    reg: &Registry,
    cx: &Context,
    status_code: u16,
    content_type: &str,
    body: Body,
    ask: bool,
) -> (r: HttpResponse)
    ensures
        framed(r, *reg, *cx, status_code, content_type@, ask, Seq::empty()),
        r.body == body,
{
    let mut headers: Vec<(String, String)> = vec![
        ("Content-Type".to_string(), content_type.to_string()),
        ("Cache-Control".to_string(), "no-cache".to_string()),
    ];
    let ghost first = headers@;
    match certify::http_headers(&reg.tree, &cx.certificate) {
        Some(more) => {
            let mut more = more;
            let ghost added = more@;
            headers.append(&mut more);
            assert(pairs(headers@) =~= pairs(first) + pairs(added));
        },
        None => {},
    }
    assert(pairs(first) =~= seq![
        ("Content-Type"@, content_type@),
        ("Cache-Control"@, "no-cache"@),
    ]);
    assert(pairs(headers@) =~= header_list(
        content_type@,
        certification(*reg, *cx),
        Seq::empty(),
    ));
    let upgrade = if ask && !cx.in_update && cx.certificate.is_none() {
        Some(true)
    } else {
        None
    };
    HttpResponse { status_code, headers, body, upgrade }
}

/// The usage page.
pub open spec fn index_text() -> Seq<char> {
    "ic-name-service\n\nGET /<name>                        redirect to the canister\nGET /api/resolve/<name>            certified answer as JSON\n(a name is <handle>/<label>, or a flat name aliasing one)\nGET /api/search?q=&tag=            directory search as JSON\nGET /api/tags                      tags in use\n\nCandid: resolve, get_record, list_names, register_handle, set_record.\nSee DESIGN.md in the repository.\n"@
}

/// The usage page.
fn index() -> (r: String)
    ensures
        r@ == index_text(),
{
    "ic-name-service\n\nGET /<name>                        redirect to the canister\nGET /api/resolve/<name>            certified answer as JSON\n(a name is <handle>/<label>, or a flat name aliasing one)\nGET /api/search?q=&tag=            directory search as JSON\nGET /api/tags                      tags in use\n\nCandid: resolve, get_record, list_names, register_handle, set_record.\nSee DESIGN.md in the repository.\n".to_string()
}

// --- routes ----------------------------------------------------------------------------------------

/// Whether `r` answers a resolve request: the certified answer, or the
/// reason there is none.
pub open spec fn resolves(r: HttpResponse, reg: Registry, cx: Context, name: Seq<char>) -> bool {
    match resolution(reg@.store, name, cx.now) {
        Ok((canister, chain)) => {
            &&& framed(r, reg, cx, 200, "application/json"@, false, Seq::empty())
            &&& r.body matches Body::Resolved(j) && j@ == json_resolved(
                name,
                canister,
                chain,
                seen(cx.certificate),
                tree_cbor(witness_shape(reg.tree, chain_names(chain))),
            )
        },
        Err(e) => {
            &&& framed(r, reg, cx, 404, "application/json"@, false, Seq::empty())
            &&& r.body matches Body::Failed(m) && m@ == e
        },
    }
}

/// The certified answer for a name.
fn api_resolve(reg: &Registry, cx: &Context, name: &str) -> (r: HttpResponse)
    ensures
        resolves(r, *reg, *cx, name@),
{
    let certificate = match &cx.certificate {
        Some(c) => Some(vstd::slice::slice_to_vec(c.as_slice())),
        None => None,
    };
    match reg.resolve_inner(name, certificate, cx.now) {
        Ok(answer) => {
            let json = JsonResolved::of(&answer);
            response(reg, cx, 200, "application/json", Body::Resolved(json), false)
        },
        Err(e) => response(reg, cx, 404, "application/json", Body::Failed(e), false),
    }
}

/// The number that a parameter writes.
pub open spec fn number_in(params: Seq<(Seq<char>, Seq<char>)>, key: Seq<char>) -> Option<u32> {
    match text_value(params, key) {
        Some(v) => number(v),
        None => None,
    }
}

/// The number that a parameter writes.
fn number_of(params: &Vec<(String, String)>, key: &str) -> (r: Option<u32>)
    ensures
        r == number_in(pairs(params@), key@),
{
    match param(params, key) {
        Some(v) => parse_number(v),
        None => None,
    }
}

/// The text of a parameter.
fn text_in(params: &Vec<(String, String)>, key: &str) -> (r: Option<String>)
    ensures
        seen(r) == text_value(pairs(params@), key@),
{
    match param(params, key) {
        Some(v) => Some(v.to_string()),
        None => None,
    }
}

/// The query that parameters ask.
pub open spec fn asked_query(params: Seq<(Seq<char>, Seq<char>)>) -> QueryState {
    QueryState {
        q: text_value(params, "q"@),
        tag: text_value(params, "tag"@),
        offset: number_in(params, "offset"@),
        limit: number_in(params, "limit"@),
    }
}

/// The page of a search as JSON shows it.
pub open spec fn search_answer(s: StoreState, query: QueryState) -> JsonSearchState {
    json_search(
        capped_count(found(s, query).len()) as u32,
        page_offset(query),
        page(found(s, query), page_offset(query) as int, page_limit(query) as int).map_values(
            |x: RecordState| hit_of(x),
        ),
    )
}

/// Whether `r` answers a search.
pub open spec fn searches(
    r: HttpResponse,
    reg: Registry,
    cx: Context,
    params: Seq<(Seq<char>, Seq<char>)>,
) -> bool {
    &&& framed(r, reg, cx, 200, "application/json"@, true, Seq::empty())
    &&& r.body matches Body::Search(j) && j@ == search_answer(reg@.store, asked_query(params))
}

/// A page of the directory.
fn api_search(reg: &Registry, cx: &Context, params: &Vec<(String, String)>) -> (r: HttpResponse)
    ensures
        searches(r, *reg, *cx, pairs(params@)),
{
    let query = SearchQuery {
        q: text_in(params, "q"),
        tag: text_in(params, "tag"),
        offset: number_of(params, "offset"),
        limit: number_of(params, "limit"),
    };
    assert(query@ == asked_query(pairs(params@)));
    let result = directory::search(&reg.store, query);
    response(reg, cx, 200, "application/json", Body::Search(JsonSearch::of(&result)), true)
}

/// The days that an expiring request looks ahead where it does not say.
pub const DEFAULT_DAYS: u32 = 30;

/// How far an expiring request looks ahead: the days it asks for, however
/// many, up to the latest time.
pub open spec fn days_ahead(params: Seq<(Seq<char>, Seq<char>)>) -> u64 {
    let days = match text_value(params, "days"@) {
        Some(v) => match count(v) {
            Some(n) => n,
            None => DEFAULT_DAYS as nat,
        },
        None => DEFAULT_DAYS as nat,
    };
    capped_ns(days * DAY_NS)
}

/// Whether `r` answers an expiring request.
pub open spec fn expires(
    r: HttpResponse,
    reg: Registry,
    cx: Context,
    params: Seq<(Seq<char>, Seq<char>)>,
) -> bool {
    &&& framed(r, reg, cx, 200, "application/json"@, true, Seq::empty())
    &&& r.body matches Body::Expiring(j) && views(j@) == by_deadline(
        expiring_list(
            reg@.store.settings.config,
            values_in_order(reg@.store.records),
            days_ahead(params),
            cx.now,
        ),
    ).map_values(|e: ExpiringState| json_expiring(e))
}

/// Flat names running out.
fn api_expiring(reg: &Registry, cx: &Context, params: &Vec<(String, String)>) -> (r: HttpResponse)
    ensures
        expires(r, *reg, *cx, pairs(params@)),
{
    let days: u32 = match param(params, "days") {
        Some(v) => match parse_count(v) {
            Some(n) => n,
            None => DEFAULT_DAYS,
        },
        None => DEFAULT_DAYS,
    };
    let wide: u128 = days as u128 * DAY_NS as u128;
    let within: u64 = if wide <= 0xffff_ffff_ffff_ffff {
        wide as u64
    } else {
        0xffff_ffff_ffff_ffff
    };
    let names = expiring_inner(&reg.store, within, cx.now);
    let json = JsonExpiring::list(&names);
    response(reg, cx, 200, "application/json", Body::Expiring(json), true)
}

/// Whether `r` answers a visit to a name: a redirect to its canister, the
/// page that warns where it changed hands lately, or the reason it leads
/// nowhere.
pub open spec fn redirects(r: HttpResponse, reg: Registry, cx: Context, name: Seq<char>) -> bool {
    match resolution(reg@.store, name, cx.now) {
        Ok((canister, chain)) => if warns(reg@.store.settings.config, chain[0], cx.now) {
            &&& framed(r, reg, cx, 200, "text/html"@, true, Seq::empty())
            &&& r.body matches Body::Text(t) && t@ == handover_page(chain[0])
        } else {
            let to = canister_url(canister);
            &&& framed(r, reg, cx, 302, "text/plain"@, true, seq![("Location"@, to)])
            &&& r.body matches Body::Text(t) && t@ == name + " -> "@ + to + "\n"@
        },
        Err(e) => {
            &&& framed(r, reg, cx, 404, "text/plain"@, true, Seq::empty())
            &&& r.body matches Body::Text(t) && t@ == e + "\n"@
        },
    }
}

/// A visit to a name.
fn redirect(reg: &Registry, cx: &Context, name: &str) -> (r: HttpResponse)
    ensures
        redirects(r, *reg, *cx, name@),
{
    let (canister, chain) = match follow(&reg.store, name, cx.now) {
        Err(e) => {
            let body = Body::Text(join2(e.as_str(), "\n"));
            return response(reg, cx, 404, "text/plain", body, true);
        },
        Ok(x) => x,
    };
    proof {
        crate::resolve::lemma_chain_not_empty(reg@.store, name@, cx.now);
        assert(views(chain@).len() > 0);
        assert(views(chain@)[0] == chain@[0]@);
    }
    let first = &chain[0];
    let cfg = harberger::config(&reg.store);
    let lately = first.flat.is_some() && (cx.now < first.changed_hands_ns || cx.now
        - first.changed_hands_ns < cfg.handover_warn_ns);
    if lately {
        match handover::page(first) {
            Some(html) => {
                return response(reg, cx, 200, "text/html", Body::Text(html), true);
            },
            None => {},
        }
    }
    let to = join3("https://", canister.to_text().as_str(), ".icp0.io/");
    let mut body = join3(name, " -> ", to.as_str());
    body.append("\n");
    let mut r = response(reg, cx, 302, "text/plain", Body::Text(body), true);
    let ghost before = r.headers@;
    r.headers.push(("Location".to_string(), to));
    assert(pairs(r.headers@) =~= header_list(
        "text/plain"@,
        certification(*reg, *cx),
        seq![("Location"@, to@)],
    )) by {
        assert(pairs(r.headers@) =~= pairs(before).push(("Location"@, to@)));
    }
    r
}

/// Whether `r` answers a request.
pub open spec fn answers(
    r: HttpResponse,
    reg: Registry,
    cx: Context,
    method: Seq<char>,
    url: Seq<char>,
) -> bool {
    let path = url_path(url);
    if method != "GET"@ && method != "HEAD"@ {
        &&& framed(r, reg, cx, 405, "text/plain"@, false, Seq::empty())
        &&& r.body matches Body::Text(t) && t@ == "GET only\n"@
    } else if path == "/"@ {
        &&& framed(r, reg, cx, 200, "text/plain"@, true, Seq::empty())
        &&& r.body matches Body::Text(t) && t@ == index_text()
    } else if begins(path, "/api/resolve/"@) {
        resolves(r, reg, cx, strip_back(path.skip("/api/resolve/"@.len() as int), '/'))
    } else if path == "/api/search"@ || path == "/api/search/"@ {
        searches(r, reg, cx, url_parameters(url))
    } else if path == "/api/tags"@ || path == "/api/tags/"@ {
        &&& framed(r, reg, cx, 200, "application/json"@, true, Seq::empty())
        &&& r.body matches Body::Tags(t) && counts_tags(t@, texts_in_order(reg@.store.tags)) && (
        in_step(reg@.store) ==> counts_carriers(t@, reg@.store.records))
    } else if path == "/api/expiring"@ || path == "/api/expiring/"@ {
        expires(r, reg, cx, url_parameters(url))
    } else {
        redirects(r, reg, cx, strip_back(strip_front(path, '/'), '/'))
    }
}

/// Answer a request.
pub fn handle(reg: &Registry, req: &HttpRequest, cx: &Context) -> (r: HttpResponse)
    ensures
        answers(r, *reg, *cx, req.method@, req.url@),
{
    if !same_text(req.method.as_str(), "GET") && !same_text(req.method.as_str(), "HEAD") {
        let body = Body::Text("GET only\n".to_string());
        return response(reg, cx, 405, "text/plain", body, false);
    }
    let path = path_of(req.url.as_str());
    if same_text(path.as_str(), "/") {
        return response(reg, cx, 200, "text/plain", Body::Text(index()), true);
    }
    match after_prefix(path.as_str(), "/api/resolve/") {
        Some(rest) => {
            let name = trim_back(rest.as_str(), '/');
            return api_resolve(reg, cx, name.as_str());
        },
        None => {},
    }
    if same_text(path.as_str(), "/api/search") || same_text(path.as_str(), "/api/search/") {
        return api_search(reg, cx, &query_of(req.url.as_str()));
    }
    if same_text(path.as_str(), "/api/tags") || same_text(path.as_str(), "/api/tags/") {
        let tags = directory::tags(&reg.store);
        return response(reg, cx, 200, "application/json", Body::Tags(tags), true);
    }
    if same_text(path.as_str(), "/api/expiring") || same_text(path.as_str(), "/api/expiring/") {
        return api_expiring(reg, cx, &query_of(req.url.as_str()));
    }
    let rest = trim_front(path.as_str(), '/');
    let name = trim_back(rest.as_str(), '/');
    redirect(reg, cx, name.as_str())
}

// --- what the gateway promises ---------------------------------------------------------------------

/// The path of a URL is what stands before its first question mark or hash.
pub proof fn law_path_ends_at_the_query(url: Seq<char>)
    ensures
        ({
            let path = url_path(url);
            &&& path.len() <= url.len()
            &&& path == url.take(path.len() as int)
            &&& !path.contains('?') && !path.contains('#')
            &&& path.len() < url.len() ==> url[path.len() as int] == '?' || url[path.len() as int]
                == '#'
        }),
{
    lemma_find(url, '?');
    lemma_find(url, '#');
    let path = url_path(url);
    assert(path =~= url.take(path.len() as int));
    if path.contains('?') {
        let i = choose|i: int| 0 <= i < path.len() && path[i] == '?';
        assert(url[i] == '?');
    }
    if path.contains('#') {
        let i = choose|i: int| 0 <= i < path.len() && path[i] == '#';
        assert(url[i] == '#');
    }
}

/// Bytes with each one written as a percent escape.
pub open spec fn all_escaped(b: Seq<u8>) -> Seq<u8>
    decreases b.len(),
{
    if b.len() == 0 {
        Seq::empty()
    } else {
        seq![37u8, hex_byte(b[0] / 16), hex_byte(b[0] % 16)] + all_escaped(b.skip(1))
    }
}

/// The hex digit of a number below 16.
pub open spec fn hex_byte(n: u8) -> u8 {
    if n < 10 {
        (48 + n) as u8
    } else {
        (55 + n) as u8
    }
}

/// Percent escapes read back: escaped bytes are the bytes, and bytes that
/// are no percent or plus sign stand for themselves.
pub proof fn law_escapes_read_back(b: Seq<u8>)
    ensures
        unescaped(all_escaped(b)) == b,
        !b.contains(37) && !b.contains(43) ==> unescaped(b) == b,
    decreases b.len(),
{
    if b.len() > 0 {
        let rest = b.skip(1);
        law_escapes_read_back(rest);
        let e = all_escaped(b);
        let n = b[0];
        assert(n == 16 * (n / 16) + n % 16);
        assert(n / 16 < 16 && n % 16 < 16);
        assert(hex_value(hex_byte(n / 16)) == Some((n / 16) as u8));
        assert(hex_value(hex_byte(n % 16)) == Some((n % 16) as u8));
        assert(e.skip(3) =~= all_escaped(rest));
        assert(unescaped(e) =~= seq![n] + unescaped(e.skip(3)));
        assert(seq![n] + rest =~= b);
        if !b.contains(37) && !b.contains(43) {
            assert(b[0] != 37 && b[0] != 43);
            assert(!rest.contains(37)) by {
                if rest.contains(37) {
                    let i = choose|i: int| 0 <= i < rest.len() && rest[i] == 37;
                    assert(b[i + 1] == 37);
                }
            }
            assert(!rest.contains(43)) by {
                if rest.contains(43) {
                    let i = choose|i: int| 0 <= i < rest.len() && rest[i] == 43;
                    assert(b[i + 1] == 43);
                }
            }
        }
    } else {
        assert(b =~= Seq::<u8>::empty());
    }
}

/// Whether a name is one that a visit can ask for: a scoped or a flat name
/// that is no route of the gateway's own.
pub open spec fn visitable(name: Seq<char>) -> bool {
    &&& is_scoped_name(name) || is_flat_name(name)
    &&& name != "api/search"@
    &&& name != "api/tags"@
    &&& name != "api/expiring"@
}

/// A name starts and ends with something else than a slash and has one at
/// most.
proof fn lemma_name_slashes(name: Seq<char>)
    requires
        is_scoped_name(name) || is_flat_name(name),
    ensures
        name.len() > 0,
        name[0] != '/',
        name.last() != '/',
        forall|i: int, j: int|
            0 <= i < j < name.len() ==> #[trigger] name[i] != '/' || #[trigger] name[j] != '/',
{
    if is_scoped_name(name) {
        let at = find(name, '/');
        lemma_find(name, '/');
        let (h, l) = (handle_of(name), label_of(name));
        lemma_segment_no_slash(h);
        lemma_segment_no_slash(l);
        assert(h[0] == name[0]);
        assert(l.last() == name.last());
        assert(h.contains(h[0]) && l.contains(l.last()));
        assert forall|i: int, j: int| 0 <= i < j < name.len() implies #[trigger] name[i] != '/'
            || #[trigger] name[j] != '/' by {
            if j > at {
                assert(name[j] == l[j - at - 1]);
                assert(l.contains(l[j - at - 1]));
            }
            if i < at {
                assert(name[i] == h[i]);
            }
        }
    } else {
        lemma_segment_no_slash(name);
        assert(name.contains(name[0]) && name.contains(name.last()));
        assert forall|i: int, j: int| 0 <= i < j < name.len() implies #[trigger] name[i] != '/'
            || #[trigger] name[j] != '/' by {
            assert(name.contains(name[i]));
        }
    }
}

/// Whether a path visits a name: a slash, the name, and perhaps another
/// slash.
pub open spec fn visits(path: Seq<char>, name: Seq<char>) -> bool {
    visitable(name) && (path == "/"@ + name || (path == "/"@ + name + "/"@ && name
        != "api/resolve"@))
}

/// A path that visits a name leads to that name.
proof fn lemma_visit(path: Seq<char>, name: Seq<char>)
    requires
        visits(path, name),
    ensures
        path != "/"@,
        !begins(path, "/api/resolve/"@),
        path != "/api/search"@ && path != "/api/search/"@,
        path != "/api/tags"@ && path != "/api/tags/"@,
        path != "/api/expiring"@ && path != "/api/expiring/"@,
        strip_back(strip_front(path, '/'), '/') == name,
{
    lemma_name_slashes(name);
    reveal_strlit("/");
    reveal_strlit("/api/resolve/");
    reveal_strlit("/api/search");
    reveal_strlit("/api/search/");
    reveal_strlit("/api/tags");
    reveal_strlit("/api/tags/");
    reveal_strlit("/api/expiring");
    reveal_strlit("/api/expiring/");
    reveal_strlit("api/search");
    reveal_strlit("api/tags");
    reveal_strlit("api/expiring");
    reveal_strlit("api/resolve");
    let rest = path.drop_first();
    let n = name.len() as int;
    assert(path[0] == '/');
    assert(forall|i: int| 0 < i <= n ==> path[i] == name[i - 1]);
    assert(rest[0] == name[0]);
    assert(strip_front(rest, '/') == rest);
    assert(strip_front(path, '/') == strip_front(rest, '/'));
    if path == "/"@ + name {
        assert(rest =~= name);
        assert(path.last() == name.last());
    } else {
        assert(rest.last() == '/');
        assert(rest.drop_last() =~= name);
    }
    assert(strip_back(name, '/') == name);
    assert(strip_back(rest, '/') == name);
    if begins(path, "/api/resolve/"@) {
        let head = path.take(13);
        assert(head == "/api/resolve/"@);
        assert forall|i: int| 0 <= i < 13 implies path[i] == "/api/resolve/"@[i] by {
            assert(head[i] == path[i]);
        }
        assert(name[3] == path[4]);
        if n >= 12 {
            assert(name[11] == path[12]);
        } else {
            assert(name =~= "api/resolve"@);
        }
    }
    assert("/api/search"@ =~= seq!['/'] + "api/search"@);
    assert("/api/search/"@ =~= "/api/search"@.push('/'));
    assert("/api/tags"@ =~= seq!['/'] + "api/tags"@);
    assert("/api/tags/"@ =~= "/api/tags"@.push('/'));
    assert("/api/expiring"@ =~= seq!['/'] + "api/expiring"@);
    assert("/api/expiring/"@ =~= "/api/expiring"@.push('/'));
    lemma_no_route(path, name, "/api/search"@, "/api/search/"@, "api/search"@);
    lemma_no_route(path, name, "/api/tags"@, "/api/tags/"@, "api/tags"@);
    lemma_no_route(path, name, "/api/expiring"@, "/api/expiring/"@, "api/expiring"@);
}

/// A visit to another name than a route's is no visit to the route.
proof fn lemma_no_route(
    path: Seq<char>,
    name: Seq<char>,
    short: Seq<char>,
    long: Seq<char>,
    route: Seq<char>,
)
    requires
        path == "/"@ + name || path == "/"@ + name + "/"@,
        name.len() > 0,
        name.last() != '/',
        short == seq!['/'] + route,
        long == short.push('/'),
        route.len() > 0,
        route.last() != '/',
        name != route,
    ensures
        path != short,
        path != long,
{
    reveal_strlit("/");
    let inner = path.drop_first();
    if path == "/"@ + name {
        assert(inner =~= name);
        assert(path.last() == name.last());
    } else {
        assert(inner.drop_last() =~= name);
        assert(path.last() == '/');
    }
    assert(short.drop_first() =~= route);
    assert(long.drop_first() =~= route.push('/'));
    assert(route.push('/').drop_last() =~= route);
    assert(short.last() == route.last());
}

/// Whether a record is a name that changed hands within the time that
/// visitors are warned.
pub open spec fn handed_over_lately(reg: Registry, r: RecordState, now: u64) -> bool {
    &&& r.flat is Some
    &&& r.previous_target is Some
    &&& now < r.changed_hands_ns + reg@.store.settings.config.handover_warn_ns
}

/// A visit to a name that leads to a canister is sent there, unless the name
/// changed hands lately: then it is shown where the name led before and
/// where it leads now, and sent nowhere.
pub proof fn law_visits_lead_to_the_canister(
    r: HttpResponse,
    reg: Registry,
    cx: Context,
    method: Seq<char>,
    url: Seq<char>,
    name: Seq<char>,
    canister: Seq<u8>,
    chain: Seq<RecordState>,
)
    requires
        answers(r, reg, cx, method, url),
        method == "GET"@ || method == "HEAD"@,
        visits(url_path(url), name),
        leads(reg@.store, name, canister, chain, cx.now),
    ensures
        !handed_over_lately(reg, chain[0], cx.now) ==> r.status_code == 302 && text_value(
            pairs(r.headers@).reverse(),
            "Location"@,
        ) == Some("https://"@ + principal_text(canister) + ".icp0.io/"@),
        handed_over_lately(reg, chain[0], cx.now) ==> {
            let was = chain[0].previous_target->0;
            &&& r.status_code == 200
            &&& pairs(r.headers@)[0] == ("Content-Type"@, "text/html"@)
            &&& r.body matches Body::Text(t) && {
                &&& occurs(
                    "Before: "@ + "<a href=\""@ + address_of(was) + "\">"@ + shown_as(was)
                        + "</a>"@,
                    t@,
                )
                &&& occurs(
                    "Now: "@ + "<a href=\""@ + address_of(chain[0].target) + "\">"@ + shown_as(
                        chain[0].target,
                    ) + "</a>"@,
                    t@,
                )
            }
        },
{
    lemma_visit(url_path(url), name);
    law_held_chain_resolves(reg@.store, name, canister, chain, cx.now);
    if handed_over_lately(reg, chain[0], cx.now) {
        law_warning_shows_both_targets(chain[0]);
    } else {
        let headers = pairs(r.headers@);
        let to = canister_url(canister);
        assert(headers.last() == ("Location"@, to));
        let back = headers.reverse();
        assert(back[0] == headers.last());
    }
}

/// A visit to a name that leads nowhere is not found, and says why.
pub proof fn law_dead_names_are_not_found(
    r: HttpResponse,
    reg: Registry,
    cx: Context,
    method: Seq<char>,
    url: Seq<char>,
    name: Seq<char>,
)
    requires
        answers(r, reg, cx, method, url),
        method == "GET"@ || method == "HEAD"@,
        visits(url_path(url), name),
        keyed_by_name(reg@.store),
        forall|canister: Seq<u8>, chain: Seq<RecordState>|
            !leads(reg@.store, name, canister, chain, cx.now),
    ensures
        r.status_code == 404,
        resolution(reg@.store, name, cx.now) matches Err(e) && (r.body matches Body::Text(t) && t@
            == e + "\n"@),
{
    lemma_visit(url_path(url), name);
    law_resolution_leads(reg@.store, name, cx.now);
}

/// Only reads are answered.
pub proof fn law_only_reads_are_answered(
    r: HttpResponse,
    reg: Registry,
    cx: Context,
    method: Seq<char>,
    url: Seq<char>,
)
    requires
        answers(r, reg, cx, method, url),
    ensures
        r.status_code == 405 <==> method != "GET"@ && method != "HEAD"@,
{
}

/// A request for a name's proof is answered with all of it where the name
/// leads to a canister: every record on the way in its certified form, the
/// certificate and the witness. Otherwise it is not found.
pub proof fn law_proofs_are_served(
    r: HttpResponse,
    reg: Registry,
    cx: Context,
    method: Seq<char>,
    url: Seq<char>,
    name: Seq<char>,
    canister: Seq<u8>,
    chain: Seq<RecordState>,
)
    requires
        answers(r, reg, cx, method, url),
        method == "GET"@ || method == "HEAD"@,
        url_path(url) == "/api/resolve/"@ + name,
        is_scoped_name(name) || is_flat_name(name),
        leads(reg@.store, name, canister, chain, cx.now),
    ensures
        r.status_code == 200,
        r.upgrade is None,
        pairs(r.headers@)[0] == ("Content-Type"@, "application/json"@),
        r.body matches Body::Resolved(j) && {
            &&& j.name@ == name
            &&& j.canister@ == principal_text(canister)
            &&& j.chain@.len() == chain.len()
            &&& forall|i: int|
                0 <= i < chain.len() ==> unlines(json_lines((#[trigger] j.chain@[i])@))
                    == canonical_text(chain[i])
            &&& seen(j.certificate) == match cx.certificate {
                Some(c) => Some(base64_text(c@)),
                None => None,
            }
            &&& j.witness@ == base64_text(
                tree_cbor(witness_shape(reg.tree, chain.map_values(|x: RecordState| x.name))),
            )
        },
{
    let path = url_path(url);
    let prefix = "/api/resolve/"@;
    reveal_strlit("/");
    reveal_strlit("/api/resolve/");
    assert(path.take(prefix.len() as int) =~= prefix);
    assert(path.skip(prefix.len() as int) =~= name);
    lemma_name_slashes(name);
    assert(strip_back(name, '/') == name);
    assert(path.len() > 1);
    law_held_chain_resolves(reg@.store, name, canister, chain, cx.now);
    let j = r.body->Resolved_0;
    let all = chain.map_values(|x: RecordState| json_record(x));
    assert(j@.chain == all);
    assert(views(j.chain@).len() == j.chain@.len());
    assert forall|i: int| 0 <= i < chain.len() implies unlines(json_lines((#[trigger] j.chain@[i])@))
        == canonical_text(chain[i]) by {
        assert(views(j.chain@)[i] == j.chain@[i]@);
        law_json_rebuilds_the_canonical_form(chain[i]);
    }
}

/// A request for the proof of a name that leads nowhere is not found, says
/// why, and never asks for an update call.
pub proof fn law_dead_names_have_no_proof(
    r: HttpResponse,
    reg: Registry,
    cx: Context,
    method: Seq<char>,
    url: Seq<char>,
    name: Seq<char>,
)
    requires
        answers(r, reg, cx, method, url),
        method == "GET"@ || method == "HEAD"@,
        url_path(url) == "/api/resolve/"@ + name,
        is_scoped_name(name) || is_flat_name(name),
        keyed_by_name(reg@.store),
        forall|canister: Seq<u8>, chain: Seq<RecordState>|
            !leads(reg@.store, name, canister, chain, cx.now),
    ensures
        r.status_code == 404,
        r.upgrade is None,
        resolution(reg@.store, name, cx.now) matches Err(e) && (r.body matches Body::Failed(m) && m@
            == e),
{
    let path = url_path(url);
    let prefix = "/api/resolve/"@;
    reveal_strlit("/");
    reveal_strlit("/api/resolve/");
    assert(path.take(prefix.len() as int) =~= prefix);
    assert(path.skip(prefix.len() as int) =~= name);
    lemma_name_slashes(name);
    assert(strip_back(name, '/') == name);
    assert(path.len() > 1);
    law_resolution_leads(reg@.store, name, cx.now);
}

/// Without a certificate to give, every read but that of a proof asks to be
/// repeated as an update call, once.
pub proof fn law_uncertified_reads_ask_for_an_update(
    r: HttpResponse,
    reg: Registry,
    cx: Context,
    method: Seq<char>,
    url: Seq<char>,
)
    requires
        answers(r, reg, cx, method, url),
        method == "GET"@ || method == "HEAD"@,
        url_path(url) == "/"@ || !begins(url_path(url), "/api/resolve/"@),
    ensures
        r.upgrade == Some(true) <==> cx.certificate is None && !cx.in_update,
{
}

/// The tags route counts the tags of the records, and the root shows how the
/// gateway is used.
pub proof fn law_tags_and_usage_are_served(
    r: HttpResponse,
    reg: Registry,
    cx: Context,
    method: Seq<char>,
    url: Seq<char>,
)
    requires
        answers(r, reg, cx, method, url),
        method == "GET"@ || method == "HEAD"@,
        in_step(reg@.store),
    ensures
        url_path(url) == "/"@ ==> r.status_code == 200 && r.body is Text,
        url_path(url) == "/api/tags"@ ==> r.status_code == 200 && (r.body matches Body::Tags(t)
            && counts_carriers(t@, reg@.store.records)),
{
    reveal_strlit("/");
    reveal_strlit("/api/resolve/");
    reveal_strlit("/api/search");
    reveal_strlit("/api/search/");
    reveal_strlit("/api/tags");
    if url_path(url) == "/api/tags"@ {
        assert(url_path(url).len() == 9);
    }
}

/// What a search request asks: what its parameters say.
pub open spec fn asks(params: Seq<(Seq<char>, Seq<char>)>, query: QueryState) -> bool {
    &&& query.q == text_value(params, "q"@)
    &&& query.tag == text_value(params, "tag"@)
    &&& query.offset == match text_value(params, "offset"@) {
        Some(v) => number(v),
        None => None,
    }
    &&& query.limit == match text_value(params, "limit"@) {
        Some(v) => number(v),
        None => None,
    }
}

/// A search request is answered with the page of what its parameters ask
/// for.
pub proof fn law_searches_are_answered(
    r: HttpResponse,
    reg: Registry,
    cx: Context,
    method: Seq<char>,
    url: Seq<char>,
    query: QueryState,
)
    requires
        answers(r, reg, cx, method, url),
        method == "GET"@ || method == "HEAD"@,
        url_path(url) == "/api/search"@,
        asks(url_parameters(url), query),
        in_step(reg@.store),
        reg@.store.records.dom().finite(),
    ensures
        r.status_code == 200,
        r.body matches Body::Search(j) && exists|list: Seq<RecordState>| #[trigger]
            lists_asked(reg@.store, query, list) && {
                let from = page_offset(query) as int;
                &&& j.total == capped_count(list.len())
                &&& j.offset == from
                &&& forall|i: int|
                    0 <= i < j.hits@.len() ==> from + i < list.len() && (
                    #[trigger] j.hits@[i])@.name == list[from + i].name
                &&& j.hits@.len() == page(list, from, page_limit(query) as int).len()
            },
{
    reveal_strlit("/");
    reveal_strlit("/api/resolve/");
    reveal_strlit("/api/search");
    let list = found(reg@.store, query);
    law_search_finds_what_is_asked(reg@.store, query);
    assert(asked_query(url_parameters(url)) == query);
    let j = r.body->Search_0;
    let shown = page(list, page_offset(query) as int, page_limit(query) as int);
    let hits = shown.map_values(|x: RecordState| hit_of(x));
    assert(views(j.hits@) == hits.map_values(|h: HitState| json_hit(h)));
    assert(views(j.hits@).len() == j.hits@.len());
    assert(hits.map_values(|h: HitState| json_hit(h)).len() == shown.len());
    assert forall|i: int| 0 <= i < j.hits@.len() implies page_offset(query) + i < list.len() && (
    #[trigger] j.hits@[i])@.name == list[page_offset(query) + i].name by {
        assert(views(j.hits@)[i] == j.hits@[i]@);
        assert(shown[i] == list[page_offset(query) + i]);
    }
    assert(lists_asked(reg@.store, query, list));
}

/// Whether a time is that many days, as far as times go.
pub open spec fn looks_ahead(within: u64, days: nat) -> bool {
    let ns = days * 86_400_000_000_000;
    &&& ns <= u64::MAX ==> within == ns
    &&& ns > u64::MAX ==> within == u64::MAX
}

/// Whether a response lists the names running out within a time.
pub open spec fn lists_ahead(r: HttpResponse, reg: Registry, now: u64, within: u64) -> bool {
    r.body matches Body::Expiring(j) && exists|list: Seq<ExpiringState>| #[trigger]
        lists_expiring(reg@.store, within, now, list) && lists_names(j@, list)
}

/// Whether entries are those of a list, with their deadlines.
pub open spec fn lists_names(j: Seq<JsonExpiring>, list: Seq<ExpiringState>) -> bool {
    &&& j.len() == list.len()
    &&& forall|i: int|
        0 <= i < list.len() ==> (#[trigger] j[i])@.name == list[i].name && j[i]@.owner
            == principal_text(list[i].owner) && j[i]@.deadline_ns == decimal(
            list[i].deadline_ns as nat,
        )
}

/// A request for names running out is answered with those that run out
/// within the days it asks for, 30 where it does not say.
pub proof fn law_expiring_names_are_listed(
    r: HttpResponse,
    reg: Registry,
    cx: Context,
    method: Seq<char>,
    url: Seq<char>,
)
    requires
        answers(r, reg, cx, method, url),
        method == "GET"@ || method == "HEAD"@,
        url_path(url) == "/api/expiring"@,
        keyed_by_name(reg@.store),
        reg@.store.records.dom().finite(),
    ensures
        r.status_code == 200,
        lists_ahead(r, reg, cx.now, days_ahead(url_parameters(url))),
        match text_value(url_parameters(url), "days"@) {
            Some(v) => match count(v) {
                Some(n) => looks_ahead(days_ahead(url_parameters(url)), n),
                None => looks_ahead(days_ahead(url_parameters(url)), 30),
            },
            None => looks_ahead(days_ahead(url_parameters(url)), 30),
        },
{
    reveal_strlit("/");
    reveal_strlit("/api/resolve/");
    reveal_strlit("/api/expiring");
    reveal_strlit("/api/search");
    reveal_strlit("/api/search/");
    reveal_strlit("/api/tags");
    reveal_strlit("/api/tags/");
    let path = url_path(url);
    assert(path.len() == 13);
    if begins(path, "/api/resolve/"@) {
        assert(path.take(13)[5] == path[5]);
    }
    assert(path[5] == 'e');
    let s = reg@.store;
    let within = days_ahead(url_parameters(url));
    law_expiring_lists_what_runs_out(s, within, cx.now);
    let list = by_deadline(
        expiring_list(s.settings.config, values_in_order(s.records), within, cx.now),
    );
    let j = r.body->Expiring_0;
    assert(views(j@) == list.map_values(|e: ExpiringState| json_expiring(e)));
    assert(views(j@).len() == j@.len());
    assert(lists_names(j@, list)) by {
        assert forall|i: int| 0 <= i < list.len() implies (#[trigger] j@[i])@.name == list[i].name
            && j@[i]@.owner == principal_text(list[i].owner) && j@[i]@.deadline_ns == decimal(
            list[i].deadline_ns as nat,
        ) by {
            assert(views(j@)[i] == j@[i]@);
        }
    }
    assert(lists_expiring(s, within, cx.now, list));
}

/// Every answer says its type and that it is not to be cached, carries the
/// certification exactly where there is a certificate to give, and asks for
/// an update call only where there is none and the call is no update yet.
pub proof fn law_answers_are_framed(
    r: HttpResponse,
    reg: Registry,
    cx: Context,
    method: Seq<char>,
    url: Seq<char>,
)
    requires
        answers(r, reg, cx, method, url),
    ensures
        ({
            let headers = pairs(r.headers@);
            &&& headers.len() >= 2
            &&& headers[0].0 == "Content-Type"@
            &&& headers[1] == ("Cache-Control"@, "no-cache"@)
            &&& cx.certificate matches Some(c) ==> {
                let proof_headers = http_header_list(c@, reg.tree.shape());
                headers.len() >= 2 + proof_headers.len() && headers.subrange(
                    2,
                    2 + proof_headers.len() as int,
                ) == proof_headers
            }
            &&& cx.certificate is None ==> headers.len() <= 3 && (headers.len() == 3 ==> headers[2].0
                == "Location"@)
            &&& r.upgrade is Some ==> r.upgrade == Some(true) && cx.certificate is None
                && !cx.in_update
        }),
{
    let headers = pairs(r.headers@);
    let kind = headers[0].1;
    if cx.certificate is Some {
        let more = http_header_list(cx.certificate->0@, reg.tree.shape());
        assert(headers.subrange(2, 2 + more.len() as int) =~= more);
    }
}

/// The query string of a URL stands between its first question mark and its
/// hash, and is read piece by piece: a piece with an equals sign is a key and
/// a value, one without is a key, and an empty one is nothing.
pub proof fn law_query_strings_are_read_in_pieces(
    path: Seq<char>,
    query: Seq<char>,
    fragment: Seq<char>,
    parts: Seq<Seq<char>>,
    key: Seq<char>,
    value: Seq<char>,
)
    requires
        !path.contains('?') && !path.contains('#'),
        !query.contains('#'),
        !key.contains('='),
    ensures
        url_path(path + seq!['?'] + query) == path,
        url_parameters(path) == Seq::<(Seq<char>, Seq<char>)>::empty(),
        url_parameters(path + seq!['?'] + query) == parameters(pieces(query, '&')),
        url_parameters(path + seq!['?'] + query + seq!['#'] + fragment) == parameters(
            pieces(query, '&'),
        ),
        parameters(Seq::empty()).len() == 0,
        parameters(parts.push(Seq::empty())) == parameters(parts),
        parameters(parts.push(key + seq!['='] + value)) == parameters(parts).push(
            (decoded(key), decoded(value)),
        ),
        key.len() > 0 ==> parameters(parts.push(key)) == parameters(parts).push(
            (decoded(key), decoded(Seq::empty())),
        ),
{
    let url = path + seq!['?'] + query;
    let n = path.len() as int;
    assert forall|j: int| 0 <= j < n implies path[j] != '?' && path[j] != '#' by {
        assert(path.contains(path[j]));
    }
    assert forall|j: int| 0 <= j < query.len() implies query[j] != '#' by {
        assert(query.contains(query[j]));
    }
    assert(url[n] == '?');
    assert forall|j: int| 0 <= j < url.len() implies url[j] != '#' by {
        if j < n {
            assert(url[j] == path[j]);
        } else if j > n {
            assert(url[j] == query[j - n - 1]);
        }
    }
    lemma_find_is(url, '?', n);
    lemma_find_is(url, '#', url.len() as int);
    assert(url_path(url) =~= path);
    assert(url.subrange(n + 1, url.len() as int) =~= query);
    lemma_find_is(path, '?', n);
    let full = url + seq!['#'] + fragment;
    assert(full[n] == '?');
    assert(full[url.len() as int] == '#');
    assert forall|j: int| 0 <= j < url.len() implies full[j] == url[j] by {}
    lemma_find_is(full, '?', n);
    lemma_find_is(full, '#', url.len() as int);
    assert(full.subrange(n + 1, url.len() as int) =~= query);
    assert(path + seq!['?'] + query + seq!['#'] + fragment =~= full);
    assert(parts.push(Seq::empty()).drop_last() =~= parts);
    let p = key + seq!['='] + value;
    let k = key.len() as int;
    assert(parts.push(p).drop_last() =~= parts);
    assert(parts.push(key).drop_last() =~= parts);
    assert(p[k] == '=');
    assert forall|j: int| 0 <= j < k implies key[j] != '=' by {
        assert(key.contains(key[j]));
    }
    assert forall|j: int| 0 <= j < k implies p[j] == key[j] by {}
    lemma_find_is(p, '=', k);
    lemma_find_is(key, '=', k);
    assert(p.take(k) =~= key);
    assert(p.skip(k + 1) =~= value);
}

} // verus!
