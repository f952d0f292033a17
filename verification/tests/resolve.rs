use modenv::envfile::{EnvFile, Pair};
use modenv::resolve::{get_var, pair_of_token, resolve, resolve_pairs, set_var, split_command};

fn parsed(text: &str, path: &str) -> EnvFile {
    EnvFile::parse(text, path).unwrap()
}

fn pair(key: &str, value: &str) -> Pair {
    Pair { key: key.to_string(), value: value.to_string() }
}

#[test]
fn pair_of_token_splits_on_first_equals() {
    let p = pair_of_token("KEY=a=b");
    assert_eq!(p.key, "KEY");
    assert_eq!(p.value, "a=b");
}

#[test]
fn pair_of_token_without_equals_has_empty_value() {
    let p = pair_of_token("KEY");
    assert_eq!(p.key, "KEY");
    assert_eq!(p.value, "");
}

#[test]
fn resolve_pairs_maps_every_token() {
    let tokens = vec!["A=1".to_string(), "B".to_string()];
    let pairs = resolve_pairs(&tokens);
    assert_eq!(pairs.len(), 2);
    assert_eq!(pairs[0].key, "A");
    assert_eq!(pairs[0].value, "1");
    assert_eq!(pairs[1].key, "B");
    assert_eq!(pairs[1].value, "");
}

#[test]
fn set_var_overwrites_and_appends() {
    let mut vars = vec![pair("A", "1")];
    set_var(&mut vars, "A", "2");
    set_var(&mut vars, "B", "3");
    assert_eq!(get_var(&vars, "A").unwrap(), "2");
    assert_eq!(get_var(&vars, "B").unwrap(), "3");
    assert!(get_var(&vars, "C").is_none());
}

#[test]
fn resolution_precedence_overrides_win() {
    // Process env FOO=0; files .env (FOO=2) then .env.local (FOO=3);
    // literal override FOO=4: the executed process sees FOO=4.
    let base = vec![pair("FOO", "0"), pair("HOME", "/root")];
    let docs = vec![parsed("FOO=2", ".env"), parsed("FOO=3", ".env.local")];
    let overrides = vec![pair("FOO", "4")];
    let vars = resolve(base, &docs, &overrides);
    assert_eq!(get_var(&vars, "FOO").unwrap(), "4");
    assert_eq!(get_var(&vars, "HOME").unwrap(), "/root");
}

#[test]
fn resolution_later_documents_override_earlier_ones() {
    let base = vec![pair("FOO", "0")];
    let docs = vec![parsed("FOO=2\nBAR=b", ".env"), parsed("FOO=3", ".env.local")];
    let overrides = vec![];
    let vars = resolve(base, &docs, &overrides);
    assert_eq!(get_var(&vars, "FOO").unwrap(), "3");
    assert_eq!(get_var(&vars, "BAR").unwrap(), "b");
}

#[test]
fn resolution_documents_override_process_environment() {
    let base = vec![pair("FOO", "0")];
    let docs = vec![parsed("FOO=2", ".env")];
    let vars = resolve(base, &docs, &vec![]);
    assert_eq!(get_var(&vars, "FOO").unwrap(), "2");
}

#[test]
fn split_command_takes_overrides_program_and_args() {
    let tokens = vec![
        "FOO=4".to_string(),
        "BAR=5".to_string(),
        "echo".to_string(),
        "hi".to_string(),
        "there".to_string(),
    ];
    let inv = split_command(&tokens).unwrap();
    assert_eq!(inv.overrides.len(), 2);
    assert_eq!(inv.overrides[0].key, "FOO");
    assert_eq!(inv.overrides[1].value, "5");
    assert_eq!(inv.program, "echo");
    assert_eq!(inv.args, vec!["hi", "there"]);
}

#[test]
fn split_command_without_program_fails() {
    let tokens = vec!["FOO=4".to_string()];
    assert!(split_command(&tokens).is_err());
    let empty: Vec<String> = vec![];
    assert!(split_command(&empty).is_err());
}
