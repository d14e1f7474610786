use name_canister::names::{check_hex, check_segment, check_tags, check_text_key, check_text_value, split};

#[test]
fn tags() {
    assert_eq!(check_tags("git,deploy").unwrap(), vec!["git", "deploy"]);
    assert_eq!(check_tags("git").unwrap(), vec!["git"]);
    assert!(check_tags("").is_err());
    assert!(check_tags("git, deploy").is_err());
    assert!(check_tags("git,git").is_err());
    assert!(check_tags("Git").is_err());
    assert!(check_tags(&(0..16).map(|i| format!("t{i}")).collect::<Vec<_>>().join(",")).is_ok());
    assert!(check_tags(&(0..17).map(|i| format!("t{i}")).collect::<Vec<_>>().join(",")).is_err());
}

#[test]
fn hex() {
    assert!(check_hex("commit", &"ab".repeat(20), &[20]).is_ok());
    assert!(check_hex("hash", &"ab".repeat(32), &[20, 32]).is_ok());
    assert!(check_hex("hash", &"AB".repeat(32), &[32]).is_err());
    assert!(check_hex("hash", &"ab".repeat(31), &[32]).is_err());
    assert!(check_hex("hash", "abc", &[32]).is_err());
}

#[test]
fn segments() {
    assert!(check_segment("handle", "alice").is_ok());
    assert!(check_segment("handle", "ic-git").is_ok());
    assert!(check_segment("handle", "a").is_ok());
    assert!(check_segment("handle", "").is_err());
    assert!(check_segment("handle", "-a").is_err());
    assert!(check_segment("handle", "a-").is_err());
    assert!(check_segment("handle", "Alice").is_err());
    assert!(check_segment("handle", "a_b").is_err());
    assert!(check_segment("handle", &"a".repeat(64)).is_err());
    assert!(check_segment("handle", &"a".repeat(63)).is_ok());
}

#[test]
fn scoped_names() {
    let (handle, label) = split("alice/ic-git").unwrap();
    assert_eq!((handle.as_str(), label.as_str()), ("alice", "ic-git"));
    assert!(split("ic-git").is_err());
    assert!(split("alice/").is_err());
    assert!(split("/ic-git").is_err());
    assert!(split("alice/ic/git").is_err());
}

#[test]
fn text() {
    assert!(check_text_key("description").is_ok());
    assert!(check_text_key("module.hash").is_ok());
    assert!(check_text_key("").is_err());
    assert!(check_text_key("Desc").is_err());
    assert!(check_text_value("a git remote on a canister").is_ok());
    assert!(check_text_value("two\nlines").is_err());
    assert!(check_text_value(&"x".repeat(513)).is_err());
}
