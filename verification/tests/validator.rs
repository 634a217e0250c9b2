use gam::validate::validate_command;

#[test]
fn empty_command_is_the_single_error() {
    let r = validate_command("");
    assert!(!r.valid);
    assert_eq!(r.errors, vec!["Command cannot be empty".to_string()]);
    assert_eq!(r.warnings.len(), 0);

    let r = validate_command("   ");
    assert!(!r.valid);
    assert_eq!(r.errors, vec!["Command cannot be empty".to_string()]);
    assert_eq!(r.warnings.len(), 0);

    // Unicode white space counts as empty too, as str::trim sees it
    let r = validate_command("\u{a0} \u{2003}");
    assert!(!r.valid);
    assert_eq!(r.errors, vec!["Command cannot be empty".to_string()]);
    assert_eq!(r.warnings.len(), 0);
}

#[test]
fn hard_reset_warns_but_stays_valid() {
    let r = validate_command("reset --hard");
    assert!(r.valid);
    assert_eq!(r.warnings, vec!["Contains hard reset (reset --hard)".to_string()]);

    let r = validate_command("!git reset --hard origin/main");
    assert!(r.valid);
    assert_eq!(
        r.warnings,
        vec![
            "Contains hard reset (reset --hard)".to_string(),
            "This is a shell command alias (starts with !). Use with caution.".to_string(),
        ]
    );
}

#[test]
fn recursive_delete_patterns() {
    assert_eq!(
        validate_command("!rm -rf /tmp/x").warnings,
        vec!["Contains recursive delete (rm -rf)".to_string(),
             "This is a shell command alias (starts with !). Use with caution.".to_string()]
    );
    assert_eq!(
        validate_command("rm -fr .").warnings,
        vec!["Contains recursive delete (rm -rf)".to_string()]
    );
    assert_eq!(
        validate_command("rm --recursive build").warnings,
        vec!["Contains recursive delete (rm -rf)".to_string()]
    );
    assert_eq!(validate_command("rm -r build").warnings.len(), 0);
}

#[test]
fn force_push_patterns() {
    assert_eq!(
        validate_command("push --force").warnings,
        vec!["Contains force push (--force)".to_string()]
    );
    assert_eq!(
        validate_command("push origin main --force").warnings,
        vec!["Contains force push (--force)".to_string()]
    );
    assert_eq!(
        validate_command("push -f").warnings,
        vec!["Contains force push (-f)".to_string()]
    );
    // "-f" inside "--force" is no standalone token, and the long form also
    // carries the short "-f" only when it stands alone
    assert_eq!(validate_command("push -file").warnings.len(), 0);
}

#[test]
fn clean_and_branch_patterns() {
    assert_eq!(
        validate_command("clean -fd").warnings,
        vec!["Contains force clean (clean -fd)".to_string()]
    );
    assert_eq!(
        validate_command("branch -D topic").warnings,
        vec!["Contains force branch delete (-D)".to_string()]
    );
    assert_eq!(validate_command("branch -d topic").warnings.len(), 0);
}

#[test]
fn warnings_keep_table_order() {
    let r = validate_command("!push --force && git reset --hard");
    assert_eq!(
        r.warnings,
        vec![
            "Contains force push (--force)".to_string(),
            "Contains hard reset (reset --hard)".to_string(),
            "This is a shell command alias (starts with !). Use with caution.".to_string(),
        ]
    );
    assert!(r.valid);
}
