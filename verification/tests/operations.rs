//! Bundles, schedules, retention, rehearsals and the bundle's runner.

use unidpp_ops::archive::{Member, ToolOutput};
use unidpp_ops::bundle::{
    binary_of, bundle_args, bundle_fault, clear_to_retire, cmd_bundle, cmd_decommission, config_cli,
    env_template, finish_bundle, runbook, stage_engine, stage_papers,
    stage_state, tenant_journals, Binary, Bundle, BundleRequest,
};
use unidpp_ops::environment::environment_of;
use unidpp_ops::http::HttpText;
use unidpp_ops::json::{compact, parse_json, text_of_path};
use unidpp_ops::listing::Tree;
use unidpp_ops::plan::{Ending, Plan, Step};
use unidpp_ops::rehearse::{
    archived_journals, binds_text, cmd_rehearse, count_lines, declared_services, is_bind_line,
    journals_to_count, keep_readings, probes, py_bool, readings, rehearsal_label, svc_bind,
    Answers, Journal, Pair,
};
use unidpp_ops::runner::{
    act, bundle_services, is_executable, launch_environment, log_path, pid_path, pid_text,
    process_to_probe, run_action, started_line, stop_line, Next, RunAction,
};
use unidpp_ops::schedule::{
    cmd_prune, cmd_schedule, install, prune_args, schedule_args, schedule_line, watch_line,
    Schedule,
};
use unidpp_ops::verify::{read_record, verify_archive, Verified};

fn list(items: &[&str]) -> Vec<String> {
    items.iter().map(|s| s.to_string()).collect()
}

fn lines(plan: &Plan) -> Vec<String> {
    plan.steps
        .iter()
        .map(|step| match step {
            Step::Say(t) => format!("say {}", t),
            Step::Warn(t) => format!("warn {}", t),
            Step::MakeDir { path, .. } => format!("mkdir {}", path),
            Step::Write { path, .. } => format!("write {}", path),
            Step::Place { path, .. } => format!("place {}", path),
            Step::Rename { from, to, .. } => format!("rename {} {}", from, to),
            Step::Copy { from, to } => format!("copy {} {}", from, to),
            Step::Stage { from, to } => format!("stage {} {}", from, to),
            Step::MarkExecutable { path } => format!("chmod {}", path),
            Step::RemoveFile { path } => format!("rm {}", path),
            Step::RemoveTree { path } => format!("rm -r {}", path),
        })
        .collect()
}

fn text_written(plan: &Plan, i: usize) -> String {
    match &plan.steps[i] {
        Step::Write { text, .. } => text.clone(),
        _ => panic!("no text is written here"),
    }
}

fn tool(success: bool, stdout: &str) -> ToolOutput {
    ToolOutput { success, stdout: stdout.as_bytes().to_vec(), stderr: Vec::new() }
}

#[test]
fn the_template_names_every_variable_once() {
    assert_eq!(
        env_template("a: ${B_1}\nb: ${A} ${B_1} ${lower} ${} ${OPEN ${X} $Y {Z} $${C}"),
        "A=\nB_1=\nC=\nX="
    );
    assert_eq!(env_template("nothing"), "");
    assert_eq!(env_template("${A"), "");
    assert_eq!(env_template("${É}${Q}"), "Q=");
}

#[test]
fn the_runbook_bears_the_tenant_and_the_moment() {
    let text = runbook("acme", 1788768959);
    assert!(text.starts_with("# acme — on-prem deployment bundle\n"));
    assert!(text.contains("Produced 2026-09-07T08:15Z."));
    assert!(text.contains("# fill every ${VAR}"));
    assert!(!text.contains("@@"));
}

#[test]
fn a_bundle_is_asked_for() {
    let q = bundle_args(&list(&["acme", "--out", "/o", "--data-only", "--out", "/p"])).ok().unwrap();
    assert_eq!(q.tenant, "acme");
    assert_eq!(q.out, Some("/p".to_string()));
    assert!(q.data_only);
    let usage = "usage: bundle <tenant> [--data-only] [--out dir]";
    for args in [
        list(&[]),
        list(&["--data-only"]),
        list(&["acme", "--out"]),
        list(&["acme", "x"]),
    ] {
        assert_eq!(bundle_args(&args).err().unwrap(), usage);
    }
}

#[test]
fn a_bundle_needs_a_valid_manifest() {
    assert!(bundle_fault(true, "/m", true, true).is_none());
    assert_eq!(
        bundle_fault(false, "/m", false, false).unwrap(),
        "unidpp-config binary missing (build ../unidpp-config)"
    );
    assert_eq!(bundle_fault(true, "/m", false, false).unwrap(), "no tenant manifest at /m");
    assert_eq!(
        bundle_fault(true, "/m", true, false).unwrap(),
        "tenant manifest does not validate — fix it before bundling"
    );
    assert_eq!(config_cli("/f"), "/f/unidpp-config/target/release/unidpp-config");
}

fn bundle(data_only: bool) -> Bundle {
    let request = BundleRequest { tenant: "acme".to_string(), out: None, data_only };
    cmd_bundle("/r", "/f", "/r/backups", "/s", &request, 0)
}

#[test]
fn a_bundle_is_labelled() {
    let full = bundle(false);
    assert_eq!(full.label, "acme-bundle-19700101T000000Z");
    assert_eq!(full.archive, "/r/backups/acme-bundle-19700101T000000Z.tar.gz");
    assert_eq!(full.manifest_path(), "/r/tenants/acme/unidpp-operator.yaml");
    assert_eq!(bundle(true).label, "acme-data-19700101T000000Z");
    assert_eq!(bundle(true).taken_at, "19700101T000000Z");
}

#[test]
fn a_bundle_carries_the_state() {
    let home = vec![
        Tree { name: "x.jsonl".to_string(), below: None },
        Tree { name: "notes".to_string(), below: None },
        Tree {
            name: "run".to_string(),
            below: Some(vec![Tree { name: "log-journal.jsonl".to_string(), below: None }]),
        },
    ];
    let journals = tenant_journals(&home);
    assert_eq!(journals, list(&["run/log-journal.jsonl", "x.jsonl"]));
    assert_eq!(
        lines(&stage_state(&bundle(true), &journals)),
        list(&[
            "mkdir /r/backups",
            "mkdir /s/acme/bin",
            "copy /r/tenants/acme/unidpp-operator.yaml /s/acme/unidpp-operator.yaml",
            "stage /r/tenants/acme/run/log-journal.jsonl /s/acme/tenants/acme/run/log-journal.jsonl",
            "stage /r/tenants/acme/x.jsonl /s/acme/tenants/acme/x.jsonl",
        ])
    );
}

fn binaries(ok: bool) -> Vec<Binary> {
    vec![
        Binary { service: "registry".to_string(), executable: true },
        Binary { service: "log".to_string(), executable: ok },
    ]
}

#[test]
fn a_bundle_carries_the_engine() {
    let plan = stage_engine(&bundle(false), &binaries(true), Some("/e"), true, true).ok().unwrap();
    assert_eq!(
        lines(&plan),
        list(&[
            "copy /f/unidpp-registry/target/release/unidpp-registry /s/acme/bin/unidpp-registry",
            "copy /f/unidpp-log/target/release/unidpp-log /s/acme/bin/unidpp-log",
            "copy /f/unidpp-config/target/release/unidpp-config /s/acme/bin/unidpp-config",
            "copy /e/unidpp-ops /s/acme/unidpp-ops",
            "copy /e/unidpp-run /s/acme/unidpp-run",
            "chmod /s/acme/unidpp-run",
        ])
    );
    let none = stage_engine(&bundle(true), &binaries(false), None, false, false).ok().unwrap();
    assert!(lines(&none).is_empty());
    assert_eq!(binary_of("/f", "log"), "/f/unidpp-log/target/release/unidpp-log");
}

#[test]
fn a_missing_program_ends_the_bundle() {
    let fault = |binaries: Vec<Binary>, dir: Option<&str>, ops: bool, runner: bool| {
        stage_engine(&bundle(false), &binaries, dir, ops, runner).err().unwrap()
    };
    assert_eq!(
        fault(binaries(false), None, false, false),
        "binary for declared service 'log' missing: /f/unidpp-log/target/release/unidpp-log"
    );
    assert_eq!(
        fault(binaries(true), None, true, true),
        "cannot resolve the running binary's directory"
    );
    assert_eq!(
        fault(binaries(true), Some("/e"), false, true),
        "unidpp-ops binary missing: /e/unidpp-ops"
    );
    assert_eq!(
        fault(binaries(true), Some("/e"), true, false),
        "unidpp-run binary missing (build the ops crate): /e/unidpp-run"
    );
}

#[test]
fn a_bundle_carries_its_papers() {
    let plan = stage_papers(&bundle(false), "k: ${K}", 0);
    assert_eq!(lines(&plan), list(&["write /s/acme/.env.template", "write /s/acme/RUNBOOK.md"]));
    assert_eq!(text_written(&plan, 0), "K=");
}

#[test]
fn a_bundle_is_completed_and_verifies() {
    let held = vec![Member { name: "acme/x".to_string(), bytes: vec![1, 2] }];
    let plan = finish_bundle(&bundle(false), &held, false);
    assert_eq!(
        lines(&plan),
        list(&[
            "write /r/backups/acme-bundle-19700101T000000Z.json",
            "say bundle: acme-bundle-19700101T000000Z",
            "say   files: 1  archive: /r/backups/acme-bundle-19700101T000000Z.tar.gz",
            "rm -r /s",
        ])
    );
    let sidecar = text_written(&plan, 0);
    let doc = parse_json(&sidecar).ok().unwrap();
    assert_eq!(text_of_path(&doc, &["bundle"]), "acme-bundle-19700101T000000Z");
    assert_eq!(text_of_path(&doc, &["taken_at_utc"]), "19700101T000000Z");
    assert_eq!(
        text_of_path(&doc, &["consistency_point", "log_tree_head"]),
        "n/a (a bundle is configuration + binaries, not a journal snapshot)"
    );
    let record = read_record(&sidecar).ok().unwrap();
    assert!(verify_archive("a", record, &list(&["acme/x"]), &held).is_ok());
    assert_eq!(lines(&finish_bundle(&bundle(true), &held, true)).len(), 2);
}

fn data_bundle(archive: &str, tenant: &str) -> Verified {
    let sidecar = format!("{{\"tenant\":\"{}\",\"sha256\":{{}}}}", tenant);
    let record = read_record(&sidecar).ok().unwrap();
    verify_archive(archive, record, &vec![], &vec![]).ok().unwrap()
}

#[test]
fn a_tenant_is_retired_aside() {
    assert_eq!(
        clear_to_retire("/r", "acme.retired.1", true).err().unwrap(),
        "'acme.retired.1' is already a retired (rename-aside) name"
    );
    assert_eq!(
        clear_to_retire("/r", "acme", false).err().unwrap(),
        "no tenant directory at tenants/acme"
    );
    let leaving = clear_to_retire("/r", "acme", true).ok().unwrap();
    let bundle = data_bundle("/b/acme-data-1.tar.gz", "acme");
    assert_eq!(
        lines(&cmd_decommission(&bundle, "/b", &leaving, 0).ok().unwrap()),
        list(&[
            "rename /r/tenants/acme /r/tenants/acme.retired.19700101T000000Z",
            "say decommission: tenants/acme -> tenants/acme.retired.19700101T000000Z",
            "say   preserved: /b/acme-data-1.tar.gz (verified)",
            "say   reversal:  mv tenants/acme.retired.19700101T000000Z tenants/acme && ./tenants/up.sh acme start",
        ])
    );
    assert!(clear_to_retire("/r", "acme.retired.19700101T000000Z", true).is_err());
}

#[test]
fn the_final_bundle_retires_its_tenant() {
    let held = vec![Member { name: "acme/x".to_string(), bytes: vec![1] }];
    let made = bundle(true);
    let sidecar = text_written(&finish_bundle(&made, &held, true), 0);
    let record = read_record(&sidecar).ok().unwrap();
    let passed = verify_archive(&made.archive, record, &list(&["acme/x"]), &held).ok().unwrap();
    let leaving = clear_to_retire("/r", "acme", true).ok().unwrap();
    let plan = cmd_decommission(&passed, "/r/backups", &leaving, 5).ok().unwrap();
    assert_eq!(
        lines(&plan)[0],
        "rename /r/tenants/acme /r/tenants/acme.retired.19700101T000005Z"
    );
}

#[test]
fn a_bundle_of_another_tenant_retires_nothing() {
    let leaving = clear_to_retire("/r", "acme", true).ok().unwrap();
    for (archive, tenant) in [
        ("/b/acme-data-1.tar.gz", "other"),
        ("/b/acme-data-foo-data-1.tar.gz", "acme-data-foo"),
        ("/b/acme-bundle-1.tar.gz", "acme"),
        ("/c/acme-data-1.tar.gz", "acme"),
        ("/b/acme-data-1.zip", "acme"),
    ] {
        assert_eq!(
            cmd_decommission(&data_bundle(archive, tenant), "/b", &leaving, 0).err().unwrap(),
            format!("decommission: {} does not preserve 'acme'", archive)
        );
    }
}

#[test]
fn cron_lines_bear_their_markers() {
    assert_eq!(
        schedule_line("/r", Some("/e/unidpp-ops")),
        "17 3 * * * cd /r && /e/unidpp-ops backup >> backups/schedule.log 2>&1 # unidpp-ops: nightly backup"
    );
    assert!(schedule_line("/r", None).contains(" && ./unidpp-ops backup "));
    assert_eq!(
        watch_line("/r"),
        "*/10 * * * * cd /r && /r/ops/target/release/unidpp-stack up >/dev/null 2>&1 # unidpp-ops: always-on watch"
    );
}

#[test]
fn installing_is_idempotent() {
    let line = "1 * * * * new # mark";
    let table = "a # other\n0 * * * * stale # mark\r\nb";
    let once = install(table, line, "mark").unwrap();
    assert_eq!(once, "a # other\nb\n1 * * * * new # mark\n");
    assert!(install(&once, line, "mark").is_none());
    assert_eq!(install("", line, "mark").unwrap(), "1 * * * * new # mark\n");
    assert!(install(&once, line, "absent").is_some());
}

#[test]
fn a_schedule_is_asked_for() {
    assert!(matches!(schedule_args(&list(&[])), Ok(Schedule::Show)));
    assert!(matches!(schedule_args(&list(&["--install"])), Ok(Schedule::Install)));
    assert!(matches!(schedule_args(&list(&["--status"])), Ok(Schedule::Status)));
    assert!(matches!(schedule_args(&list(&["--watch", "--install"])), Ok(Schedule::Watch)));
    assert_eq!(
        schedule_args(&list(&["--watch"])).err().unwrap(),
        "usage: schedule --watch --install"
    );
    assert_eq!(
        schedule_args(&list(&["x"])).err().unwrap(),
        "usage: schedule [--install|--status]"
    );
}

#[test]
fn the_schedule_is_shown_and_installed() {
    let shown = cmd_schedule(&Schedule::Show, "/r", Some("/e"), "");
    assert!(shown.table.is_none());
    assert_eq!(
        lines(&shown.plan)[0],
        "say cron line (print-only; pass --install to add it to the crontab):"
    );
    let first = cmd_schedule(&Schedule::Install, "/r", Some("/e"), "x\n");
    let table = first.table.unwrap();
    assert_eq!(table, format!("x\n{}\n", schedule_line("/r", Some("/e"))));
    assert_eq!(
        lines(&first.plan),
        list(&["say schedule: installed (17 3 * * * nightly — see 'crontab -l')"])
    );
    let again = cmd_schedule(&Schedule::Install, "/r", Some("/e"), &table);
    assert!(again.table.is_none());
    assert_eq!(
        lines(&again.plan),
        list(&["say schedule: already installed (the current line)"])
    );
    let watch = cmd_schedule(&Schedule::Watch, "/r", None, &table);
    let both = watch.table.unwrap();
    assert!(both.starts_with(&table));
    assert_eq!(
        lines(&watch.plan),
        list(&[
            "say watch: installed (*/10 — the idempotent repair)",
            "say   removal: crontab -l | grep -v 'unidpp-ops: always-on watch' | crontab -",
        ])
    );
    let rewatch = cmd_schedule(&Schedule::Watch, "/r", None, &both);
    assert_eq!(lines(&rewatch.plan), list(&["say watch: already installed (the current line)"]));
    let status = cmd_schedule(&Schedule::Status, "/r", None, &table);
    assert_eq!(
        lines(&status.plan),
        list(&[
            "say backup: installed (nightly at 03:17)",
            "say watch:  not installed — pass --watch --install",
        ])
    );
    let bare = cmd_schedule(&Schedule::Status, "/r", None, "");
    assert_eq!(lines(&bare.plan)[0], "say backup: not installed — pass --install");
}

#[test]
fn retention_is_asked_for() {
    assert_eq!(prune_args(&list(&[])), Ok((14, false)));
    assert_eq!(prune_args(&list(&["--keep", "3", "--apply"])), Ok((3, true)));
    assert_eq!(prune_args(&list(&["--keep=007"])), Ok((7, false)));
    assert_eq!(prune_args(&list(&["--keep", "99999999999999999999999"])), Ok((usize::MAX, false)));
    assert_eq!(prune_args(&list(&["--keep=99999999999999999999999"])), Ok((usize::MAX, false)));
    for bad in [list(&["--keep"]), list(&["--keep", "x"]), list(&["--keep="]), list(&["--keep=+1"])]
    {
        assert_eq!(prune_args(&bad), Err("--keep needs a number".to_string()));
    }
    assert_eq!(
        prune_args(&list(&["x"])),
        Err("usage: prune [--keep N] [--apply]".to_string())
    );
}

#[test]
fn pruning_reports_or_deletes_the_oldest() {
    let archives = list(&["c.tar.gz", "b.tar.gz", "a.tar.gz"]);
    assert_eq!(
        lines(&cmd_prune("/b", &archives, 1, false)),
        list(&[
            "say prune: 3 backup(s), keeping the newest 1",
            "say   candidate: b.tar.gz (+ sidecar)",
            "say   candidate: a.tar.gz (+ sidecar)",
            "say   report-only — pass --apply to delete exactly the listed backup(s)",
        ])
    );
    assert_eq!(
        lines(&cmd_prune("/b", &archives, 2, true)),
        list(&[
            "say prune: 3 backup(s), keeping the newest 2",
            "rm /b/a.tar.gz",
            "rm /b/a.json",
            "say   deleted: a.tar.gz (+ sidecar)",
        ])
    );
    assert_eq!(lines(&cmd_prune("/b", &archives, 3, false)).len(), 1);
}

#[test]
fn a_count_beyond_the_machine_keeps_everything() {
    let (keep, apply) = prune_args(&list(&["--keep", "99999999999999999999999", "--apply"])).unwrap();
    let archives: Vec<String> = (0..20).map(|i| format!("a-{:02}.tar.gz", i)).collect();
    assert_eq!(
        lines(&cmd_prune("/b", &archives, keep, apply)),
        vec![format!("say prune: 20 backup(s), keeping the newest {}", usize::MAX)]
    );
}

#[test]
fn bind_lines_are_recognized() {
    assert!(is_bind_line("UNIDPP_REGISTRY_BIND=127.0.0.1:8390"));
    assert!(is_bind_line("UNIDPP_BIND="));
    assert!(!is_bind_line("UNIDPP_registry_BIND=x"));
    assert!(!is_bind_line("X_UNIDPP_BIND=x"));
    assert!(!is_bind_line("UNIDPP_A1_BIND=x"));
    assert!(!is_bind_line("UNIDPP_REGISTRY=BIND"));
}

#[test]
fn services_are_declared_with_their_ports() {
    assert_eq!(
        declared_services(&Some(tool(true, "registry\n log \n\n"))).ok().unwrap(),
        list(&["registry", "log"])
    );
    for out in [None, Some(tool(false, "registry"))] {
        assert_eq!(
            declared_services(&out).err().unwrap(),
            "cannot enumerate the declared services"
        );
    }
    assert_eq!(
        svc_bind(&Some(tool(true, "X=1\nUNIDPP_LOG_BIND=127.0.0.1:8392:9\n"))),
        "8392"
    );
    assert_eq!(svc_bind(&Some(tool(true, "UNIDPP_LOG_BIND=nothing"))), "");
    assert_eq!(svc_bind(&Some(tool(true, "X=1"))), "");
    assert_eq!(svc_bind(&Some(tool(false, "UNIDPP_BIND=a:1"))), "");
    assert_eq!(svc_bind(&None), "");
    assert_eq!(
        binds_text(&vec![
            ("registry".to_string(), "8390".to_string()),
            ("log".to_string(), "".to_string()),
        ]),
        "registry=8390,log="
    );
}

#[test]
fn probes_go_by_name() {
    let asked = probes("trust=8391,registry=8390,hub=x,log=,odd");
    let seen: Vec<(String, Option<u16>, Option<String>)> =
        asked.into_iter().map(|p| (p.service, p.port, p.path)).collect();
    assert_eq!(
        seen,
        vec![
            ("hub".to_string(), None, None),
            ("log".to_string(), None, Some("/tree/head".to_string())),
            ("registry".to_string(), Some(8390), Some("/items?limit=1".to_string())),
            ("trust".to_string(), Some(8391), Some("/revocations".to_string())),
        ]
    );
    assert!(probes("").is_empty());
}

fn ok(body: &str) -> Option<HttpText> {
    Some(HttpText { status: 200, body: body.to_string() })
}

#[test]
fn readings_say_what_the_state_is() {
    let answers = vec![
        Answers {
            service: "hub".to_string(),
            identity: ok(r#"{"version":"1.2","build_id":"ab"}"#),
            domain: None,
        },
        Answers { service: "log".to_string(), identity: ok("{}"), domain: ok(r#"{"tree_size":5}"#) },
        Answers { service: "registry".to_string(), identity: None, domain: ok(r#"{"count":10}"#) },
        Answers {
            service: "trust".to_string(),
            identity: None,
            domain: ok(r#"{"revocations":[1,2]}"#),
        },
    ];
    let journals = vec![
        Journal { path: "registry-journal.jsonl".to_string(), text: "a\nb\n".to_string() },
        Journal { path: "run/log-journal.jsonl".to_string(), text: "".to_string() },
    ];
    assert_eq!(
        compact(&readings(&answers, &journals)),
        r#"{"build_identity":{"hub":"1.2+ab","log":"?+?","registry":null,"trust":null},"journal_lines":{"registry-journal.jsonl":2,"run/log-journal.jsonl":0},"log_tree_size":5,"registry_items":10,"trust_revocations":2}"#
    );
    assert_eq!(count_lines("a\n\nb"), 3);
}

#[test]
fn journals_are_counted_and_held_against() {
    let run = vec![
        Tree { name: "log-journal.jsonl".to_string(), below: None },
        Tree { name: "other.jsonl".to_string(), below: None },
    ];
    let tenants = vec![Tree {
        name: "acme".to_string(),
        below: Some(vec![Tree { name: "other.jsonl".to_string(), below: None }]),
    }];
    assert_eq!(
        journals_to_count(&list(&["registry-journal.jsonl", "x"]), &run, &tenants),
        list(&["registry-journal.jsonl", "run/log-journal.jsonl", "tenants/acme/other.jsonl"])
    );
    assert_eq!(
        archived_journals(&list(&["a.jsonl", "m.yaml", "run/b-journal.jsonl"])),
        list(&["a.jsonl", "run/b-journal.jsonl"])
    );
}

fn pair(archived: &str, live: &str) -> Pair {
    Pair { archived: archived.as_bytes().to_vec(), live: live.as_bytes().to_vec() }
}

#[test]
fn an_upgrade_that_keeps_the_state_is_green() {
    let before = parse_json(
        r#"{"build_identity":{"log":"1"},"journal_lines":{"a":1},"log_tree_size":5,"registry_items":null}"#,
    )
    .ok()
    .unwrap();
    let after = parse_json(
        r#"{"build_identity":{"log":"2"},"journal_lines":{"a":1},"log_tree_size":5,"registry_items":3}"#,
    )
    .ok()
    .unwrap();
    let outcome =
        cmd_rehearse("/b", "upgrade-1", &before, &after, &vec![pair("ab", "abc"), pair("", "")], 9);
    assert!(matches!(outcome.ending, Ending::Done));
    assert_eq!(
        lines(&outcome.plan),
        list(&[
            "write /b/upgrade-1.report.json",
            "say   domain readings equal: True",
            "say   journal lines equal:   True",
            "say   append-only:           2/2",
            "rm /b/upgrade-1.before.json",
            "rm /b/upgrade-1.after.json",
            "say rehearse: GREEN in 9s — report: backups/upgrade-1.report.json",
        ])
    );
    let report = parse_json(&text_written(&outcome.plan, 0)).ok().unwrap();
    assert_eq!(text_of_path(&report, &["result"]), "GREEN");
    assert_eq!(text_of_path(&report, &["build_identity", "log", "before"]), "1");
    assert_eq!(text_of_path(&report, &["build_identity", "log", "after"]), "2");
    assert_eq!(
        text_of_path(&report, &["append_only"]),
        "2/2 backup journals are live-prefix-compatible"
    );
}

#[test]
fn an_upgrade_that_changes_the_state_fails() {
    let doc = |text: &str| parse_json(text).ok().unwrap();
    let verdict = |before: &str, after: &str, pairs: Vec<Pair>| {
        let outcome = cmd_rehearse("/b", "u", &doc(before), &doc(after), &pairs, 0);
        let failed = matches!(
            outcome.ending,
            Ending::Die(m) if m == "rehearse FAILED (report kept: backups/u.report.json)"
        );
        (failed, outcome.plan.steps.len())
    };
    assert_eq!(verdict(r#"{"log_tree_size":5}"#, r#"{"log_tree_size":6}"#, vec![]), (true, 4));
    assert_eq!(verdict(r#"{"registry_items":5}"#, r#"{}"#, vec![]), (true, 4));
    assert_eq!(verdict(r#"{"journal_lines":{"a":1}}"#, "{}", vec![]), (true, 4));
    assert_eq!(verdict("{}", "{}", vec![pair("ab", "b")]), (true, 4));
    assert_eq!(verdict("{}", "{}", vec![pair("ab", "ab")]), (false, 7));
    assert_eq!(py_bool(true), "True");
    assert_eq!(rehearsal_label(0), "upgrade-19700101T000000Z");
    assert_eq!(
        text_written(&keep_readings("/b", "u", "before", &doc(r#"{ "a": 1 }"#)), 0),
        r#"{"a":1}"#
    );
}

#[test]
fn the_runner_is_asked_for() {
    assert!(matches!(run_action(None), Ok(RunAction::Start)));
    assert!(matches!(run_action(Some("stop")), Ok(RunAction::Stop)));
    assert!(matches!(run_action(Some("status")), Ok(RunAction::Status)));
    assert_eq!(
        run_action(Some("")).err().unwrap(),
        "usage: unidpp-run [start|stop|status]"
    );
    assert_eq!(bundle_services(&tool(true, " a \n\nb")).ok().unwrap(), list(&["a", "b"]));
    assert_eq!(
        bundle_services(&tool(false, "a")).err().unwrap(),
        "unidpp-config services rejected the manifest"
    );
}

fn next(action: RunAction, pidfile: Option<&str>, alive: bool, there: bool) -> String {
    match act(&action, "log", pidfile, alive, "/b/unidpp-log", there) {
        Next::Say(t) => format!("say {}", t),
        Next::Die(t) => format!("die {}", t),
        Next::Kill(t) => format!("kill {}", t),
        Next::Launch => "launch".to_string(),
    }
}

#[test]
fn the_runner_does_what_is_next() {
    assert_eq!(next(RunAction::Stop, Some(" 7\n"), true, true), "kill 7");
    assert_eq!(next(RunAction::Stop, None, true, true), "say log not running");
    assert_eq!(next(RunAction::Status, Some("7\n"), true, true), "say   log: running (pid 7)");
    assert_eq!(next(RunAction::Status, Some("7"), false, true), "say   log: down");
    assert_eq!(next(RunAction::Status, Some(" "), true, true), "say   log: down");
    assert_eq!(next(RunAction::Start, Some("7"), true, true), "say   log: already running");
    assert_eq!(next(RunAction::Start, None, true, true), "launch");
    assert_eq!(
        next(RunAction::Start, Some("7"), false, false),
        "die unidpp-run: no binary for log at /b/unidpp-log"
    );
    assert_eq!(process_to_probe(Some(" 7 ")), Some("7".to_string()));
    assert_eq!(process_to_probe(Some(" ")), None);
    assert_eq!(process_to_probe(None), None);
    assert_eq!(pid_text("\t1\n"), "1");
    assert_eq!(stop_line("log", true), "stopped log");
    assert_eq!(stop_line("log", false), "log not running");
    assert_eq!(started_line("log", "7"), "  log: started (pid 7)");
    assert_eq!(pid_path("/r", "log"), "/r/log.pid");
    assert_eq!(log_path("/r", "log"), "/r/log.log");
}

#[test]
fn a_service_is_launched_with_its_environment() {
    let pairs = |list: Vec<(String, String)>| {
        list.into_iter().map(|(k, v)| format!("{}:{}", k, v)).collect::<Vec<String>>()
    };
    assert_eq!(
        pairs(environment_of("A=1\n# x\nB=c=d\r\n=e\nC")),
        list(&["A:1", "B:c=d", ":e"])
    );
    assert_eq!(
        pairs(launch_environment("console", &tool(true, "A=1"), "/m").ok().unwrap()),
        list(&["A:1", "UNIDPP_CONSOLE_MANIFEST:/m"])
    );
    assert_eq!(pairs(launch_environment("log", &tool(true, "A=1"), "/m").ok().unwrap()).len(), 1);
    assert_eq!(
        launch_environment("log", &tool(false, ""), "/m").err().unwrap(),
        "render-env for log rejected the manifest"
    );
}

#[test]
fn any_execute_bit_will_do() {
    assert!(is_executable(Some(0o100)));
    assert!(is_executable(Some(0o100755)));
    assert!(is_executable(Some(0o001)));
    assert!(!is_executable(Some(0o100644)));
    assert!(!is_executable(None));
}
