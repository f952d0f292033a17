use modenv::envfile::EnvFile;
use modenv::reconcile::{check, missing_keys, CheckOptions, CheckOutcome};

fn parsed(text: &str, path: &str) -> EnvFile {
    EnvFile::parse(text, path).unwrap()
}

#[test]
fn missing_keys_reports_source_order() {
    let source = parsed("A=1\nB=2\nC=3", "src");
    let dest = parsed("B=9", "dst");
    assert_eq!(missing_keys(&source, &dest), vec!["A", "C"]);
}

#[test]
fn missing_keys_counts_any_value_even_empty() {
    let source = parsed("A=1", "src");
    let dest = parsed("A=", "dst");
    assert!(missing_keys(&source, &dest).is_empty());
}

#[test]
fn missing_keys_symmetry_is_independent() {
    let a = parsed("A=1\nB=2", "a");
    let b = parsed("B=9\nC=3", "b");
    assert_eq!(missing_keys(&a, &b), vec!["A"]);
    assert_eq!(missing_keys(&b, &a), vec!["C"]);
}

#[test]
fn check_reports_foreign_keys_as_the_terminating_outcome() {
    let reference = parsed("A=1\nB=2", "ref");
    let mut dests = vec![parsed("B=9\nC=3", "dst")];
    let outcome = check(&reference, &mut dests, &CheckOptions { force: false, quiet: false });
    match outcome {
        CheckOutcome::ForeignKeysFound { missing, foreign } => {
            assert_eq!(foreign, vec!["C"]);
            assert_eq!(missing.len(), 1);
            assert_eq!(missing[0], vec!["A"]);
        },
        _ => panic!("expected foreign keys"),
    }
    assert_eq!(dests[0].serialize(), "B=9\nC=3");
    assert!(!dests[0].modified);
}

#[test]
fn check_refuses_forcing_while_foreign_keys_exist() {
    let reference = parsed("A=1\nB=2", "ref");
    let mut dests = vec![parsed("B=9\nC=3", "dst")];
    let outcome = check(&reference, &mut dests, &CheckOptions { force: true, quiet: false });
    assert!(matches!(outcome, CheckOutcome::ForeignKeysFound { .. }));
    assert_eq!(dests[0].serialize(), "B=9\nC=3");
}

#[test]
fn check_force_reorders_after_foreign_keys_are_fixed() {
    let reference = parsed("A=1\nB=2", "ref");
    let mut dests = vec![parsed("B=9", "dst")];
    let outcome = check(&reference, &mut dests, &CheckOptions { force: true, quiet: false });
    assert!(matches!(outcome, CheckOutcome::Consistent));
    assert_eq!(dests[0].serialize(), "A=\nB=9");
    assert!(dests[0].modified);
}

#[test]
fn check_without_force_reports_missing_keys_per_destination() {
    let reference = parsed("A=1\nB=2", "ref");
    let mut dests = vec![parsed("A=5", "one"), parsed("A=6\nB=7", "two")];
    let outcome = check(&reference, &mut dests, &CheckOptions { force: false, quiet: false });
    match outcome {
        CheckOutcome::MissingKeysFound(per_dest) => {
            assert_eq!(per_dest.len(), 2);
            assert_eq!(per_dest[0], vec!["B"]);
            assert!(per_dest[1].is_empty());
        },
        _ => panic!("expected missing keys"),
    }
    assert_eq!(dests[0].serialize(), "A=5");
    assert!(!dests[0].modified);
}

#[test]
fn check_is_consistent_when_nothing_is_missing() {
    let reference = parsed("A=1\nB=2", "ref");
    let mut dests = vec![parsed("B=x\nA=y", "dst")];
    let outcome = check(&reference, &mut dests, &CheckOptions { force: false, quiet: false });
    assert!(matches!(outcome, CheckOutcome::Consistent));
}

#[test]
fn check_quiet_does_not_change_the_outcome() {
    let reference = parsed("A=1", "ref");
    let mut loud = vec![parsed("B=1", "dst")];
    let mut quiet = vec![parsed("B=1", "dst")];
    let a = check(&reference, &mut loud, &CheckOptions { force: false, quiet: false });
    let b = check(&reference, &mut quiet, &CheckOptions { force: false, quiet: true });
    assert!(matches!(a, CheckOutcome::ForeignKeysFound { .. }));
    assert!(matches!(b, CheckOutcome::ForeignKeysFound { .. }));
}

#[test]
fn foreign_key_union_is_sorted_and_deduplicated() {
    let reference = parsed("A=1", "ref");
    let mut dests = vec![
        parsed("A=1\nZEBRA=1\nALPHA=2", "one"),
        parsed("A=2\nMIDDLE=3\nZEBRA=9", "two"),
    ];
    let outcome = check(&reference, &mut dests, &CheckOptions { force: false, quiet: false });
    match outcome {
        CheckOutcome::ForeignKeysFound { foreign, .. } => {
            assert_eq!(foreign, vec!["ALPHA", "MIDDLE", "ZEBRA"]);
        },
        _ => panic!("expected foreign keys"),
    }
}

#[test]
fn foreign_keys_with_duplicate_lines_are_reported_once() {
    let reference = parsed("A=1", "ref");
    let mut dests = vec![parsed("X=1\nX=2", "dst")];
    let outcome = check(&reference, &mut dests, &CheckOptions { force: false, quiet: false });
    match outcome {
        CheckOutcome::ForeignKeysFound { foreign, .. } => assert_eq!(foreign, vec!["X"]),
        _ => panic!("expected foreign keys"),
    }
}
