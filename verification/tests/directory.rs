use name_canister::directory::{
    index, names_with_tag, rebuild, search, tags as tag_counts, unindex, SearchQuery, TagCount,
};
use name_canister::lifecycle::{attach, init};
use name_canister::principal::Principal;
use name_canister::record::{Record, Target};
use name_canister::registry::Registry;
use name_canister::store;

fn rec(name: &str, description: &str, tags: &str) -> Record {
    let mut r = Record::new(
        name.to_string(),
        Principal::from_text("2vxsx-fae").unwrap(),
        Target::Address(Principal::from_text("umobs-yiaaa-aaaab-agyrq-cai").unwrap()),
        7,
    );
    r.text.push(("description".into(), description.into()));
    if !tags.is_empty() {
        r.text.push(("tags".into(), tags.into()));
    }
    r.text.sort();
    r
}

fn filled() -> Registry {
    let (maps, meta) = attach();
    let mut reg = init(maps, meta).unwrap().open().unwrap();
    for r in [
        rec("alice/ic-git", "a git remote on a canister", "git,deploy"),
        rec("alice/ic-vote", "Voting for canisters", "vote"),
        rec("bob/site", "static site", ""),
    ] {
        index(&mut reg.store, &r);
        store::put_record(&mut reg.store, &r);
    }
    reg
}

#[test]
fn index_search_and_tags() {
    let mut reg = filled();
    assert_eq!(names_with_tag(&reg.store, "git"), vec!["alice/ic-git"]);
    assert_eq!(
        tag_counts(&reg.store),
        vec![
            TagCount {
                tag: "deploy".into(),
                count: 1
            },
            TagCount {
                tag: "git".into(),
                count: 1
            },
            TagCount {
                tag: "vote".into(),
                count: 1
            },
        ]
    );

    let all = search(&reg.store, SearchQuery::default());
    assert_eq!(all.total, 3);
    assert_eq!(all.hits.len(), 3);

    let q = search(
        &reg.store,
        SearchQuery {
            q: Some("CANISTER".into()),
            ..Default::default()
        },
    );
    assert_eq!(q.total, 2);
    assert_eq!(q.hits[0].name, "alice/ic-git");
    assert_eq!(q.hits[0].tags, vec!["git", "deploy"]);

    let by_tag = search(
        &reg.store,
        SearchQuery {
            tag: Some("git".into()),
            ..Default::default()
        },
    );
    assert_eq!(by_tag.total, 1);
    assert_eq!(
        by_tag.hits[0].description.as_deref(),
        Some("a git remote on a canister")
    );

    let paged = search(
        &reg.store,
        SearchQuery {
            offset: Some(1),
            limit: Some(1),
            ..Default::default()
        },
    );
    assert_eq!(paged.total, 3);
    assert_eq!(paged.hits.len(), 1);
    assert_eq!(paged.hits[0].name, "alice/ic-vote");

    // Retagging moves the name between tags.
    let old = store::get_record(&reg.store, "alice/ic-git").unwrap();
    unindex(&mut reg.store, &old);
    let new = rec("alice/ic-git", "a git remote on a canister", "scm");
    index(&mut reg.store, &new);
    store::put_record(&mut reg.store, &new);
    assert!(names_with_tag(&reg.store, "git").is_empty());
    assert_eq!(names_with_tag(&reg.store, "scm"), vec!["alice/ic-git"]);

    // Rebuild from records gives the same index.
    rebuild(&mut reg.store);
    assert_eq!(names_with_tag(&reg.store, "scm"), vec!["alice/ic-git"]);
    assert_eq!(names_with_tag(&reg.store, "vote"), vec!["alice/ic-vote"]);
    assert!(names_with_tag(&reg.store, "git").is_empty());
}

#[test]
fn a_search_text_is_trimmed_and_matches_names_too() {
    let reg = filled();
    let hits = search(
        &reg.store,
        SearchQuery {
            q: Some("  IC-vote ".into()),
            ..Default::default()
        },
    );
    assert_eq!(hits.total, 1);
    assert_eq!(hits.hits[0].name, "alice/ic-vote");
    let none = search(
        &reg.store,
        SearchQuery {
            q: Some("nothing".into()),
            ..Default::default()
        },
    );
    assert_eq!((none.total, none.hits.len()), (0, 0));
}

#[test]
fn pages_are_at_least_one_and_at_most_a_hundred() {
    let (maps, meta) = attach();
    let mut reg = init(maps, meta).unwrap().open().unwrap();
    for i in 0..130 {
        let r = rec(&format!("alice/n{i:03}"), "d", "");
        store::put_record(&mut reg.store, &r);
    }
    let page = |limit: Option<u32>, offset: Option<u32>| {
        search(
            &reg.store,
            SearchQuery {
                limit,
                offset,
                ..Default::default()
            },
        )
    };
    assert_eq!(page(None, None).hits.len(), 20);
    assert_eq!(page(Some(0), None).hits.len(), 1);
    assert_eq!(page(Some(1000), None).hits.len(), 100);
    let last = page(Some(50), Some(100));
    assert_eq!((last.total, last.offset, last.hits.len()), (130, 100, 30));
    assert_eq!(page(None, Some(500)).hits.len(), 0);
}

#[test]
fn a_tag_counts_the_names_that_carry_it() {
    let (maps, meta) = attach();
    let mut reg = init(maps, meta).unwrap().open().unwrap();
    for name in ["a/x", "a/y", "b/z"] {
        let r = rec(name, "d", "git");
        index(&mut reg.store, &r);
        store::put_record(&mut reg.store, &r);
    }
    assert_eq!(
        tag_counts(&reg.store),
        vec![TagCount {
            tag: "git".into(),
            count: 3
        }]
    );
    assert_eq!(names_with_tag(&reg.store, "git"), vec!["a/x", "a/y", "b/z"]);
    // A tag that only begins with another one is another tag.
    assert!(names_with_tag(&reg.store, "gi").is_empty());
}
