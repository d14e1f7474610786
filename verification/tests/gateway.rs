use base64::Engine;
use name_canister::certify;
use name_canister::gateway::{
    handle, param, path_of, percent_decode, query_of, Body, Context, HttpRequest, HttpResponse,
};
use name_canister::handover::{date_at, note, page};
use name_canister::harberger;
use name_canister::harberger::Config;
use name_canister::json::{JsonHarberger, JsonRecord, JsonTarget};
use name_canister::lifecycle::{attach, init};
use name_canister::principal::Principal;
use name_canister::record::{Record, Target};
use name_canister::registry::Registry;
use name_canister::store;
use name_canister::tax::Harberger;

const T: u128 = 1_000_000_000_000;
const DAY: u64 = 86_400 * 1_000_000_000;

fn p(n: u8) -> Principal {
    Principal::from_slice(&[n; 10])
}

fn fresh() -> Registry {
    let (maps, meta) = attach();
    let mut reg = init(maps, meta).unwrap().open().unwrap();
    let a = p(1);
    reg.register_handle(&a, "alice").unwrap();
    reg.set_record(&a, "alice/app", Target::Address(p(7)), 5).unwrap();
    reg.set_text(&a, "alice/app", "tags", Some("git,deploy".to_string()), 6).unwrap();
    reg
}

fn get(reg: &Registry, url: &str, certificate: Option<Vec<u8>>, in_update: bool, now: u64) -> HttpResponse {
    let req = HttpRequest {
        method: "GET".to_string(),
        url: url.to_string(),
        headers: vec![],
        body: vec![],
    };
    handle(reg, &req, &Context { certificate, in_update, now })
}

fn header(r: &HttpResponse, key: &str) -> Option<String> {
    r.headers.iter().find(|(k, _)| k == key).map(|(_, v)| v.clone())
}

#[test]
fn query_strings() {
    let q = query_of("/api/search?q=ic%20git&tag=deploy&limit=5#x");
    assert_eq!(param(&q, "q"), Some("ic git"));
    assert_eq!(param(&q, "tag"), Some("deploy"));
    assert_eq!(param(&q, "limit"), Some("5"));
    assert_eq!(param(&q, "offset"), None);
    assert!(query_of("/api/search").is_empty());
    assert_eq!(percent_decode("a+b%2Fc%zz"), "a b/c%zz");
    // A multibyte character right after a '%' must not panic, and a
    // sign is not a hex digit (the '+' then decodes as a space).
    assert_eq!(percent_decode("%a\u{e9}"), "%a\u{e9}");
    assert_eq!(percent_decode("%+1"), "% 1");
    assert_eq!(percent_decode("%41"), "A");
}

#[test]
fn paths() {
    assert_eq!(path_of("/alice/ic-git?x=1"), "/alice/ic-git");
    assert_eq!(path_of("/api/resolve/a/b#frag"), "/api/resolve/a/b");
    assert_eq!(path_of("/"), "/");
}

#[test]
fn query_strings_at_their_edges() {
    // A fragment before the question mark hides it, empty pieces are no
    // parameters, and the first occurrence wins.
    assert!(query_of("/a#b?q=1").is_empty());
    assert_eq!(query_of("/a?&&q&q=2&"), vec![
        ("q".to_string(), "".to_string()),
        ("q".to_string(), "2".to_string()),
    ]);
    assert_eq!(param(&query_of("/a?q=1=2&q=3"), "q"), Some("1=2"));
    // Bytes that are no UTF-8 become the replacement character.
    assert_eq!(percent_decode("%ff"), "\u{fffd}");
    assert_eq!(percent_decode("%C3%a9"), "\u{e9}");
    assert_eq!(percent_decode("%4"), "%4");
}

#[test]
fn only_get_and_head_are_answered() {
    let reg = fresh();
    let cx = Context { certificate: None, in_update: false, now: 9 };
    let ask = |method: &str| {
        let req = HttpRequest {
            method: method.to_string(),
            url: "/".to_string(),
            headers: vec![],
            body: vec![],
        };
        handle(&reg, &req, &cx)
    };
    let r = ask("POST");
    assert_eq!((r.status_code, r.upgrade), (405, None));
    assert_eq!(r.body, Body::Text("GET only\n".to_string()));
    for m in ["GET", "HEAD"] {
        let r = ask(m);
        assert_eq!((r.status_code, r.upgrade), (200, Some(true)));
        assert!(matches!(r.body, Body::Text(t) if t.starts_with("ic-name-service\n")));
    }
}

#[test]
fn a_name_redirects_to_its_canister() {
    let reg = fresh();
    let to = format!("https://{}.icp0.io/", p(7).to_text());
    let r = get(&reg, "/alice/app/?x=1", None, false, 9);
    assert_eq!((r.status_code, r.upgrade), (302, Some(true)));
    assert_eq!(header(&r, "Location"), Some(to.clone()));
    assert_eq!(header(&r, "Cache-Control").as_deref(), Some("no-cache"));
    assert_eq!(r.body, Body::Text(format!("alice/app -> {to}\n")));
    let r = get(&reg, "/alice/none", None, true, 9);
    assert_eq!((r.status_code, r.upgrade), (404, None));
    assert_eq!(r.body, Body::Text("no record for 'alice/none'\n".to_string()));
}

#[test]
fn a_certificate_replaces_the_upgrade() {
    let reg = fresh();
    let r = get(&reg, "/alice/app", Some(vec![1, 2, 3]), false, 9);
    assert_eq!((r.status_code, r.upgrade), (302, None));
    let want = certify::http_headers(&reg.tree, &Some(vec![1, 2, 3])).unwrap();
    assert_eq!(header(&r, "IC-Certificate"), Some(want[0].1.clone()));
    assert_eq!(header(&r, "IC-CertificateExpression"), Some(want[1].1.clone()));
    assert!(header(&r, "Location").is_some());
    assert_eq!(header(&get(&reg, "/", None, false, 9), "IC-Certificate"), None);
}

#[test]
fn resolving_over_http_carries_the_proof() {
    let reg = fresh();
    let r = get(&reg, "/api/resolve/alice/app/", Some(vec![1, 2, 3]), false, 9);
    assert_eq!((r.status_code, r.upgrade), (200, None));
    assert_eq!(header(&r, "Content-Type").as_deref(), Some("application/json"));
    let Body::Resolved(j) = r.body else { panic!("not a resolve answer") };
    assert_eq!(j.name, "alice/app");
    assert_eq!(j.canister, p(7).to_text());
    assert_eq!(j.certificate.as_deref(), Some("AQID"));
    let witness = certify::witness(&reg.tree, &vec!["alice/app".to_string()]);
    assert_eq!(j.witness, base64::engine::general_purpose::STANDARD.encode(witness));
    assert_eq!(j.chain.len(), 1);
    assert_eq!(j.chain[0].updated_ns, "6");
    assert_eq!(j.chain[0].target, JsonTarget::Address(p(7).to_text()));
    // Without a certificate the answer is still given, and never upgraded.
    let r = get(&reg, "/api/resolve/alice/app", None, false, 9);
    assert_eq!(r.upgrade, None);
    assert!(matches!(r.body, Body::Resolved(j) if j.certificate.is_none()));
    let r = get(&reg, "/api/resolve/alice/none", None, false, 9);
    assert_eq!((r.status_code, r.upgrade), (404, None));
    assert_eq!(r.body, Body::Failed("no record for 'alice/none'".to_string()));
}

#[test]
fn searching_over_http() {
    let reg = fresh();
    let r = get(&reg, "/api/search?tag=git&limit=x", None, false, 9);
    assert_eq!((r.status_code, r.upgrade), (200, Some(true)));
    let Body::Search(j) = r.body else { panic!("not a search") };
    assert_eq!((j.total, j.offset), (1, 0));
    assert_eq!(j.hits[0].name, "alice/app");
    assert_eq!(j.hits[0].updated_ns, "6");
    assert_eq!(j.hits[0].tags, vec!["git", "deploy"]);
    let Body::Search(j) = get(&reg, "/api/search/?q=nothing", None, false, 9).body else {
        panic!("not a search")
    };
    assert_eq!(j.total, 0);
    let Body::Tags(t) = get(&reg, "/api/tags/", None, true, 9).body else { panic!("not tags") };
    let tags: Vec<(&str, u32)> = t.iter().map(|c| (c.tag.as_str(), c.count)).collect();
    assert_eq!(tags, vec![("deploy", 1), ("git", 1)]);
}

#[test]
fn expiring_over_http() {
    let mut reg = fresh();
    let c = Config { rate_bps: 1_000, ..Config::default() };
    harberger::set_config(&mut reg.store, &c).unwrap();
    let mut r = Record::new("ic-git".into(), p(1), Target::Alias("alice/app".into()), 0);
    r.flat = Some(Harberger::new(10 * T, T / 10, 0));
    store::put_record(&mut reg.store, &r);
    // A tenth of a year of tax is prepaid: 36.5 days.
    let r = get(&reg, "/api/expiring", None, false, 0);
    assert_eq!((r.status_code, r.body), (200, Body::Expiring(vec![])));
    let Body::Expiring(e) = get(&reg, "/api/expiring?days=37", None, false, 0).body else {
        panic!("not a list")
    };
    assert_eq!(e.len(), 1);
    assert_eq!(e[0].name, "ic-git");
    assert_eq!(e[0].status, "active");
    assert_eq!(e[0].owner, p(1).to_text());
    assert_eq!(e[0].deadline_ns, (DAY / 2 * 73).to_string());
    assert_eq!(e[0].balance, "100000000000");
    assert_eq!(e[0].tax_per_year, "1000000000000");
    // However many days are asked for, more of them never show less.
    for days in ["4294967295", "4294967296", "99999999999999999999999999"] {
        let url = format!("/api/expiring?days={days}");
        assert!(matches!(get(&reg, &url, None, false, 0).body, Body::Expiring(e) if e.len() == 1));
    }
    // What is no number asks for the default.
    assert_eq!(get(&reg, "/api/expiring?days=-1", None, false, 0).body, Body::Expiring(vec![]));
    let Body::Expiring(e) = get(&reg, "/api/expiring/", None, false, 40 * DAY).body else {
        panic!("not a list")
    };
    assert_eq!(e[0].status, "grace");
}

#[test]
fn a_handover_is_warned_of() {
    let mut reg = fresh();
    let c = Config { handover_warn_ns: 10 * DAY, ..Config::default() };
    harberger::set_config(&mut reg.store, &c).unwrap();
    let mut r = Record::new("ic-git".into(), p(1), Target::Alias("alice/app".into()), 100 * DAY);
    r.flat = Some(Harberger::new(10 * T, 10 * T, 100 * DAY));
    store::put_record(&mut reg.store, &r);
    // A name that was never anybody else's is no handover.
    assert_eq!(get(&reg, "/ic-git", None, false, 101 * DAY).status_code, 302);
    assert_eq!((page(&r), note(&r)), (None, None));
    r.previous_target = Some(Target::Address(p(8)));
    store::put_record(&mut reg.store, &r);
    let got = get(&reg, "/ic-git", None, false, 109 * DAY);
    assert_eq!(got.status_code, 200);
    assert_eq!(header(&got, "Content-Type").as_deref(), Some("text/html"));
    assert_eq!(header(&got, "Location"), None);
    let old_text = p(8).to_text();
    assert_eq!(
        got.body,
        Body::Text(format!(
            "<!doctype html>\n<title>ic-git changed hands</title>\n\
             <p>ic-git changed hands on 1970-04-11.</p>\n\
             <p>Before: <a href=\"https://{old_text}.icp0.io/\">{old_text}</a></p>\n\
             <p>Now: <a href=\"/alice/app\">alice/app</a></p>\n"
        ))
    );
    assert_eq!(
        note(&r),
        Some(format!(
            "ic-git changed hands on 1970-04-11: it was {old_text} and is now alice/app"
        ))
    );
    assert_eq!(get(&reg, "/ic-git", None, false, 110 * DAY).status_code, 302);
}

#[test]
fn dates() {
    let at = |day: u64| date_at(day * DAY + 5).to_text();
    assert_eq!(at(0), "1970-01-01");
    assert_eq!(at(58), "1970-02-28");
    assert_eq!(at(59), "1970-03-01");
    assert_eq!(at(11_016), "2000-02-29");
    assert_eq!(at(11_017), "2000-03-01");
    assert_eq!(at(20_453), "2025-12-31");
    assert_eq!(at(20_454), "2026-01-01");
    assert_eq!(date_at(u64::MAX).to_text(), "2554-07-21");
}

#[test]
fn json_writes_numbers_as_decimal_texts() {
    let mut r = Record::new("ic-git".into(), p(1), Target::Alias("alice/app".into()), u64::MAX);
    r.flat = Some(Harberger::new(u128::MAX, 5, 7));
    r.previous_target = Some(Target::Address(p(8)));
    let j = JsonRecord::of(&r);
    assert_eq!(j.created_ns, "18446744073709551615");
    assert_eq!(j.previous_target, Some(JsonTarget::Address(p(8).to_text())));
    assert_eq!(
        j.flat,
        Some(JsonHarberger {
            price: "340282366920938463463374607431768211455".to_string(),
            balance: "5".to_string(),
            settled_ns: "7".to_string(),
            lapsed_ns: None,
        })
    );
}

/// The canonical text, from nothing but the JSON of a record.
fn rebuilt(j: &JsonRecord) -> String {
    let target = |t: &JsonTarget| match t {
        JsonTarget::Address(p) => format!("address:{p}"),
        JsonTarget::Alias(n) => format!("alias:{n}"),
    };
    let mut s = format!("name={}\nowner={}\ntarget={}\n", j.name, j.owner, target(&j.target));
    for (k, v) in &j.text {
        s += &format!("text.{k}={v}\n");
    }
    s += &format!(
        "created_ns={}\nupdated_ns={}\nchanged_hands_ns={}\n",
        j.created_ns, j.updated_ns, j.changed_hands_ns
    );
    if let Some(t) = &j.previous_target {
        s += &format!("previous_target={}\n", target(t));
    }
    if let Some(h) = &j.flat {
        s += &format!(
            "price={}\nbalance={}\nsettled_ns={}\nlapsed_ns={}\n",
            h.price,
            h.balance,
            h.settled_ns,
            h.lapsed_ns.as_deref().unwrap_or("none")
        );
    }
    s
}

#[test]
fn json_is_enough_to_rebuild_the_certified_text() {
    let mut r = Record::new("alice/app".into(), p(1), Target::Address(p(7)), 5);
    r.text = vec![("a".to_string(), "1".to_string()), ("b".to_string(), "2".to_string())];
    assert_eq!(rebuilt(&JsonRecord::of(&r)).into_bytes(), r.canonical());
    let mut r = Record::new("ic-git".into(), p(1), Target::Alias("alice/app".into()), 5);
    r.flat = Some(Harberger::new(10, 20, 30));
    assert_eq!(rebuilt(&JsonRecord::of(&r)).into_bytes(), r.canonical());
    r.previous_target = Some(Target::Alias("bob/app".into()));
    assert_eq!(rebuilt(&JsonRecord::of(&r)).into_bytes(), r.canonical());
}
