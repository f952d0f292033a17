use modenv::cli::{default_envfile, envfiles_excluding, gitignore_needs_rules, Cli};

fn bare_cli() -> Cli {
    Cli {
        verbose: false,
        production: false,
        development: false,
        normal: false,
        example: false,
        env_file: vec![],
        pairs: vec![],
    }
}

#[test]
fn flags_select_paths_in_fixed_order() {
    let mut cli = bare_cli();
    cli.production = true;
    cli.normal = true;
    assert_eq!(cli.all_provided_envfiles(), vec![".env.production", ".env"]);
}

#[test]
fn explicit_paths_are_comma_split_after_flag_paths() {
    let mut cli = bare_cli();
    cli.development = true;
    cli.env_file = vec!["a.env,b.env".to_string(), "c.env".to_string()];
    assert_eq!(
        cli.all_provided_envfiles(),
        vec![".env.development", "a.env", "b.env", "c.env"]
    );
}

#[test]
fn provided_envfile_is_the_first_path() {
    let mut cli = bare_cli();
    cli.example = true;
    cli.normal = true;
    assert_eq!(cli.provided_envfile().unwrap(), ".env");
    assert!(bare_cli().provided_envfile().is_none());
}

#[test]
fn default_envfile_takes_the_first_existing_candidate() {
    assert_eq!(default_envfile(true, true, true, true).unwrap(), ".env.local");
    assert_eq!(default_envfile(false, true, false, true).unwrap(), ".env.development");
    assert_eq!(default_envfile(false, false, true, true).unwrap(), ".env");
    assert_eq!(default_envfile(false, false, false, true).unwrap(), "../.env");
    assert!(default_envfile(false, false, false, false).is_none());
}

#[test]
fn envfiles_or_default_prefers_named_paths() {
    let mut cli = bare_cli();
    cli.normal = true;
    assert_eq!(
        cli.envfiles_or_default(true, false, false, false).unwrap(),
        vec![".env"]
    );
}

#[test]
fn envfiles_or_default_falls_back_and_is_never_empty() {
    let cli = bare_cli();
    assert_eq!(
        cli.envfiles_or_default(false, true, false, false).unwrap(),
        vec![".env.development"]
    );
    assert!(cli.envfiles_or_default(false, false, false, false).is_none());
}

#[test]
fn envfiles_excluding_filters_names() {
    let names = vec![
        ".env".to_string(),
        ".env.production".to_string(),
        "readme.md".to_string(),
        ".envy".to_string(),
    ];
    assert_eq!(
        envfiles_excluding(&names, ".env"),
        vec![".env.production", ".envy"]
    );
}

#[test]
fn gitignore_rules_are_needed_only_without_a_mention() {
    assert!(gitignore_needs_rules("target/\n*.log"));
    assert!(!gitignore_needs_rules("target/\n.env*\n"));
    assert!(!gitignore_needs_rules("prefix.envsuffix"));
}
