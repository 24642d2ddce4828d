//! The manifest of a restored deployment.

use unidpp_ops::manifest::{manifest_name, name_line_value};
use unidpp_ops::rewrite::{rewrite_name, rewrite_state_files};

/// The two root journals move under the tenant, a run/ journal keeps its
/// service name, a tenant-qualified state file rebases, and the first `name:`
/// line takes the tenant's name.
#[test]
fn rewrite_matches_the_script() {
    let manifest = "api_version: unidpp.org/v1\ndeployment:\n  name: unidpp-reference\nservices:\n  registry:\n    bind: 127.0.0.1:8390\n    state_file: registry-journal.jsonl\n  log:\n    state_file: run/log-journal.jsonl\n  archive:\n    state_file: run/archive-journal.jsonl\n  other:\n    state_file: tenants/acme-cn/registry-journal.jsonl\n";
    let tenant = "drill-x";
    let rewritten = rewrite_name(&rewrite_state_files(manifest, tenant), tenant);
    let lines: Vec<&str> = rewritten.lines().collect();
    assert_eq!(lines[2], "  name: drill-x");
    assert_eq!(
        lines[6],
        "    state_file: tenants/drill-x/registry-journal.jsonl"
    );
    assert_eq!(
        lines[8],
        "    state_file: tenants/drill-x/log-journal.jsonl"
    );
    assert_eq!(
        lines[10],
        "    state_file: tenants/drill-x/archive-journal.jsonl"
    );
    assert_eq!(
        lines[12],
        "    state_file: tenants/drill-x/registry-journal.jsonl"
    );
    assert!(!rewritten.contains("acme-cn"));
    assert!(!rewritten.contains("run/"));
}

/// A journal name that itself contains the suffix shape still resolves to its
/// service name.
#[test]
fn rewrite_unpicks_the_journal_suffix() {
    let rewritten = rewrite_state_files("    state_file: run/trust-journal.jsonl\n", "t2");
    assert_eq!(
        rewritten,
        "    state_file: tenants/t2/trust-journal.jsonl\n"
    );
}

/// A state file the rules do not recognize passes through untouched rather
/// than being mangled.
#[test]
fn rewrite_leaves_unknown_state_files_alone() {
    let line = "    state_file: elsewhere/journal.jsonl\n";
    assert_eq!(rewrite_state_files(line, "t3"), line);
}

#[test]
fn blanks_before_a_state_file_become_one() {
    assert_eq!(
        rewrite_state_files("state_file:\t  jp-registry-journal.jsonl #x", "t"),
        "state_file: tenants/t/jp-registry-journal.jsonl #x"
    );
    assert_eq!(
        rewrite_state_files("state_file:registry-journal.jsonl.bak", "t"),
        "state_file: tenants/t/registry-journal.jsonl.bak"
    );
}

#[test]
fn odd_state_files_stay() {
    for text in [
        "state_file: tenants/a b/x.jsonl",
        "state_file: tenants/acme",
        "state_file: run/-.jsonl",
        "state_file: run/-journal.jsonl",
        "state_file: run/Log-journal.jsonl",
        "state_file: run/log2-journal.jsonl",
        "state_file:",
        "",
    ] {
        assert_eq!(rewrite_state_files(text, "t"), text);
    }
}

#[test]
fn a_service_name_may_hold_dashes() {
    assert_eq!(
        rewrite_state_files("state_file: run/jp-log-journal.jsonl", "t"),
        "state_file: tenants/t/jp-log-journal.jsonl"
    );
}

#[test]
fn rebasing_again_changes_nothing() {
    let once = rewrite_state_files(
        "a:\n  state_file:   run/log-journal.jsonl\nb:\n  state_file: tenants/x/y.jsonl\n",
        "acme",
    );
    assert_eq!(once, "a:\n  state_file: tenants/acme/log-journal.jsonl\nb:\n  state_file: tenants/acme/y.jsonl\n");
    assert_eq!(rewrite_state_files(&once, "acme"), once);
}

#[test]
fn only_the_first_name_line_is_renamed() {
    assert_eq!(
        rewrite_name("x: 1\n\u{3000}name: \told \nname: other\n", "new"),
        "x: 1\n\u{3000}name: \tnew\nname: other\n"
    );
}

#[test]
fn a_name_that_is_no_token_is_not_renamed() {
    assert_eq!(rewrite_name("name: a b\nname:", "new"), "name: a b\nname:");
    assert_eq!(rewrite_name("name:\u{a0}ok", "new"), "name:new");
}

#[test]
fn renaming_ends_lines_with_line_feeds() {
    assert_eq!(rewrite_name("a\r\nname: x\r\n", "t"), "a\nname: t\n");
    assert_eq!(rewrite_name("a\n\n", "t"), "a\n\n");
    assert_eq!(rewrite_name("", "t"), "");
}

#[test]
fn name_lines_are_recognized() {
    assert_eq!(name_line_value("  name: a.b_c-1  "), Some("a.b_c-1".to_string()));
    assert_eq!(name_line_value("name:x"), Some("x".to_string()));
    assert_eq!(name_line_value("name: "), None);
    assert_eq!(name_line_value("name: a/b"), None);
    assert_eq!(name_line_value("- name: a"), None);
    assert_eq!(name_line_value("name: é"), None);
}

#[test]
fn a_manifest_without_a_name_is_a_deployment() {
    assert_eq!(manifest_name("a: 1\nb: 2\n"), "deployment");
    assert_eq!(manifest_name("a: 1\n  name: x\nname: y\n"), "x");
}

#[test]
fn the_restored_manifest_is_the_tenants() {
    let manifest = "deployment:\n  name: origin\nservices:\n  log:\n    state_file: run/log-journal.jsonl\n";
    let restored = rewrite_name(&rewrite_state_files(manifest, "acme"), "acme");
    assert_eq!(manifest_name(&restored), "acme");
    assert!(restored.contains("state_file: tenants/acme/log-journal.jsonl"));
}

#[test]
fn the_last_rebase_wins() {
    for text in [
        "state_file: registry-journal.jsonl\n",
        "state_file:run/jp-log-journal.jsonlstate_file: run/x-journal.jsonl",
        "a\nstate_file: tenants/old/x.jsonl\nstate_file: elsewhere\n",
        "state_file:state_file: registry-journal.jsonlstate_file:",
    ] {
        let twice = rewrite_state_files(&rewrite_state_files(text, "one"), "two");
        assert_eq!(twice, rewrite_state_files(text, "two"));
    }
}
