use modenv::apply::{apply_batch, remove_batch};
use modenv::envfile::{EnvFile, Pair};

fn parsed(text: &str, path: &str) -> EnvFile {
    EnvFile::parse(text, path).unwrap()
}

fn pair(key: &str, value: &str) -> Pair {
    Pair { key: key.to_string(), value: value.to_string() }
}

#[test]
fn apply_adds_value_to_primary_and_key_to_companions() {
    let requests = vec![pair("NEW", "secret")];
    let mut primary = parsed("A=1", ".env");
    let mut companions = vec![parsed("A=", ".env.example")];
    apply_batch(&requests, &mut primary, &mut companions, false).unwrap();
    assert_eq!(primary.serialize(), "A=1\nNEW=secret");
    assert_eq!(companions[0].serialize(), "A=\nNEW=");
    assert!(primary.modified);
    assert!(companions[0].modified);
}

#[test]
fn conflict_guard_applies_nothing_anywhere() {
    let requests = vec![pair("FRESH", "1"), pair("TAKEN", "2")];
    let mut primary = parsed("A=1", ".env");
    let mut companions = vec![parsed("TAKEN=prod", ".env.production")];
    let err = apply_batch(&requests, &mut primary, &mut companions, false).unwrap_err();
    assert_eq!(err.key, "TAKEN");
    assert_eq!(err.path, ".env.production");
    assert_eq!(primary.serialize(), "A=1");
    assert_eq!(companions[0].serialize(), "TAKEN=prod");
    assert!(!primary.modified);
    assert!(!companions[0].modified);
}

#[test]
fn conflict_in_primary_is_reported_before_companions() {
    let requests = vec![pair("K", "v")];
    let mut primary = parsed("K=here", ".env");
    let mut companions = vec![parsed("K=there", ".env.production")];
    let err = apply_batch(&requests, &mut primary, &mut companions, false).unwrap_err();
    assert_eq!(err.path, ".env");
}

#[test]
fn empty_existing_value_is_no_conflict() {
    let requests = vec![pair("K", "v")];
    let mut primary = parsed("K=", ".env");
    let mut companions = vec![];
    apply_batch(&requests, &mut primary, &mut companions, false).unwrap();
    assert_eq!(primary.serialize(), "K=v");
}

#[test]
fn force_bypasses_the_conflict_guard() {
    let requests = vec![pair("K", "new")];
    let mut primary = parsed("K=old", ".env");
    let mut companions = vec![parsed("K=prod", ".env.production")];
    apply_batch(&requests, &mut primary, &mut companions, true).unwrap();
    assert_eq!(primary.serialize(), "K=new");
    // Propagation deliberately blanks the value; an existing different
    // value on the companion is overwritten by the blank.
    assert_eq!(companions[0].serialize(), "K=");
}

#[test]
fn apply_without_changes_leaves_documents_clean() {
    let requests = vec![pair("A", "1")];
    let mut primary = parsed("A=1", ".env");
    let mut companions = vec![parsed("A=", ".env.example")];
    apply_batch(&requests, &mut primary, &mut companions, true).unwrap();
    assert!(!primary.modified);
    assert!(!companions[0].modified);
}

#[test]
fn remove_batch_removes_everywhere_without_guard() {
    let requests = vec![pair("A", ""), pair("B", "")];
    let mut docs = vec![parsed("A=1\nB=2\nC=3", ".env"), parsed("B=9", ".env.production")];
    remove_batch(&requests, &mut docs);
    assert_eq!(docs[0].serialize(), "C=3");
    assert_eq!(docs[1].serialize(), "");
    assert!(docs[0].modified);
    assert!(docs[1].modified);
}

#[test]
fn remove_batch_marks_only_touched_documents() {
    let requests = vec![pair("Z", "")];
    let mut docs = vec![parsed("A=1", ".env")];
    remove_batch(&requests, &mut docs);
    assert_eq!(docs[0].serialize(), "A=1");
    assert!(!docs[0].modified);
}
