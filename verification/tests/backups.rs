//! Backups, their verification, and what is made of them.

use unidpp_ops::archive::{
    extract_args, list_args, tar_create, tar_created, tar_member, tar_members, Member, ToolOutput,
};
use unidpp_ops::backup::{
    backup_files, begin_backup, member_checksums, payload, perform_backup, sidecar_of, Deployment,
};
use unidpp_ops::digest::sha256_hex;
use unidpp_ops::drill::{
    archive_label, begin_drill, cmd_drill, count_identical, count_sound, drill_recover,
    drill_tenant, expected_files, finish_drill, judge_parity, recover_label, unpack_at, Compared,
    Drill,
};
use unidpp_ops::json::{compact, parse_json, text_of_path};
use unidpp_ops::listing::{walk_matching, Tree};
use unidpp_ops::plan::{scratch_dir, Ending, Fault, Plan, Step};
use unidpp_ops::recover::{clear_to_recover, cmd_recover, live_names, pid_in, RunFile};
use unidpp_ops::restore::{
    bundle_top, cmd_restore, review_line, rewrite_manifest, rewritten_member_name, tenant_path,
    unpack_into_tenant,
};
use unidpp_ops::verify::{
    check_backup, members_to_read, read_record, verified_line, verify_archive, Verified,
};

fn strings(list: &[&str]) -> Vec<String> {
    list.iter().map(|s| s.to_string()).collect()
}

fn file(name: &str) -> Tree {
    Tree { name: name.to_string(), below: None }
}

fn dir(name: &str, below: Vec<Tree>) -> Tree {
    Tree { name: name.to_string(), below: Some(below) }
}

fn members(list: &[(&str, &str)]) -> Vec<Member> {
    list.iter()
        .map(|(name, bytes)| Member { name: name.to_string(), bytes: bytes.as_bytes().to_vec() })
        .collect()
}

fn fault_text(fault: &Fault) -> String {
    match fault {
        Fault::Die(m) => format!("or die: {}", m),
        Fault::Panic => "or panic".to_string(),
        Fault::Ignore => "or not".to_string(),
    }
}

fn shown(plan: &Plan) -> Vec<String> {
    plan.steps
        .iter()
        .map(|step| match step {
            Step::Say(t) => format!("say {}", t),
            Step::Warn(t) => format!("warn {}", t),
            Step::MakeDir { path, fault } => format!("mkdir {} {}", path, fault_text(fault)),
            Step::Write { path, fault, .. } => format!("write {} {}", path, fault_text(fault)),
            Step::Place { path, bytes } => {
                format!("place {} {}", path, String::from_utf8_lossy(bytes))
            }
            Step::Rename { from, to, fault } => {
                format!("rename {} {} {}", from, to, fault_text(fault))
            }
            Step::Copy { from, to } => format!("copy {} {}", from, to),
            Step::Stage { from, to } => format!("stage {} {}", from, to),
            Step::MarkExecutable { path } => format!("chmod {}", path),
            Step::RemoveFile { path } => format!("rm {}", path),
            Step::RemoveTree { path } => format!("rm -r {}", path),
        })
        .collect()
}

fn written(plan: &Plan, i: usize) -> String {
    match &plan.steps[i] {
        Step::Write { text, .. } => text.clone(),
        _ => panic!("no text is written here"),
    }
}

fn output(success: bool, stdout: &[u8], stderr: &str) -> ToolOutput {
    ToolOutput { success, stdout: stdout.to_vec(), stderr: stderr.as_bytes().to_vec() }
}

fn sidecar_for(held: &Vec<Member>) -> String {
    let backup = begin_backup("/b", "acme", 0);
    written(&perform_backup(&backup, "size 1 root r", held, true), 0)
}

fn names(held: &Vec<Member>) -> Vec<String> {
    held.iter().map(|m| m.name.clone()).collect()
}

fn passed(held: &Vec<Member>) -> Verified {
    let record = read_record(&sidecar_for(held)).ok().unwrap();
    verify_archive("/b/a.tar.gz", record, &names(held), held).ok().unwrap()
}

#[test]
fn a_sidecar_stands_beside_its_archive() {
    assert_eq!(sidecar_of("/b/x-1.tar.gz"), "/b/x-1.json");
    assert_eq!(sidecar_of("/b/x"), "/b/x.json");
    assert_eq!(sidecar_of(".tar.gz.tar.gz"), ".tar.gz.json");
}

#[test]
fn tar_is_asked_by_arguments() {
    assert_eq!(list_args("a"), strings(&["-tzf", "a"]));
    assert_eq!(extract_args("a", "m"), strings(&["-xOzf", "a", "m"]));
    assert_eq!(
        tar_create("a", "/r", &strings(&["x", "y z"])),
        strings(&["-czf", "a", "-C", "/r", "x", "y z"])
    );
}

#[test]
fn tar_answers_or_complains() {
    assert!(tar_created(&output(true, b"", "")).is_ok());
    assert_eq!(
        tar_created(&output(false, b"", " no space \n")).err().unwrap(),
        "tar failed: no space"
    );
    assert_eq!(
        tar_members("a", &output(true, b"x/\nx/y\n\n  z  \n", "")).ok().unwrap(),
        strings(&["x/y", "z"])
    );
    assert_eq!(
        tar_members("a", &output(true, b"\xff\n", "")).ok().unwrap(),
        strings(&["\u{fffd}"])
    );
    assert_eq!(
        tar_members("a", &output(false, b"x", "bad")).err().unwrap(),
        "cannot list a: bad"
    );
    assert_eq!(tar_member("a", "m", output(true, b"\x00\xff", "")).ok().unwrap(), vec![0, 255]);
    assert_eq!(
        tar_member("a", "m", output(false, b"", "gone")).err().unwrap(),
        "cannot read member m from a: gone"
    );
}

#[test]
fn a_walk_goes_by_name() {
    let tree = vec![
        file("b.sh"),
        dir("a", vec![file("z.sh"), dir("k", vec![file("y.sh")]), file("c.txt")]),
        dir("empty", vec![]),
    ];
    assert_eq!(
        walk_matching(&tree, |n: &str| n.ends_with(".sh")),
        strings(&["a/k/y.sh", "a/z.sh", "b.sh"])
    );
}

#[test]
fn the_payload_is_data_not_exhaust() {
    let root = Deployment {
        files: strings(&["jp-registry-journal.jsonl", "unidpp-operator.yaml", "notes.txt"]),
        run: vec![file("log.log"), file("log-journal.jsonl"), file("log.pid")],
        tenants: vec![
            dir("acme", vec![file("unidpp-operator.yaml"), file("x.jsonl"), file("up.sh")]),
            file("up.sh"),
        ],
        seed: vec![dir("items", vec![file("b.json"), file("a.json")])],
    };
    let expected = strings(&[
        "unidpp-operator.yaml",
        "jp-registry-journal.jsonl",
        "run/log-journal.jsonl",
        "tenants/acme/unidpp-operator.yaml",
        "tenants/acme/up.sh",
        "tenants/up.sh",
        "seed/items/a.json",
        "seed/items/b.json",
    ]);
    assert_eq!(payload(&root), expected);
    assert_eq!(backup_files(&root).ok().unwrap(), expected);
}

#[test]
fn nothing_cannot_be_backed_up() {
    let root =
        Deployment { files: strings(&["x"]), run: vec![], tenants: vec![], seed: vec![] };
    assert_eq!(backup_files(&root).err().unwrap(), "nothing to back up (no manifest?)");
}

#[test]
fn a_backup_is_labelled_by_its_moment() {
    let backup = begin_backup("/r/backups", "unidpp-reference", 1788768959);
    assert_eq!(backup.label, "unidpp-reference-20260907T081559Z");
    assert_eq!(backup.taken_at, "20260907T081559Z");
    assert_eq!(backup.archive, "/r/backups/unidpp-reference-20260907T081559Z.tar.gz");
}

#[test]
fn a_backup_is_completed_by_its_sidecar() {
    let backup = begin_backup("/b", "a-b", 0);
    let held = members(&[("y", "2"), ("x", "1")]);
    let plan = perform_backup(&backup, "size 1 root r", &held, false);
    assert_eq!(
        shown(&plan),
        strings(&[
            "write /b/a-b-19700101T000000Z.json or die: cannot write the sidecar",
            "say backup: a-b-19700101T000000Z",
            "say   files: 2  consistency point: size 1 root r",
            "say   archive: /b/a-b-19700101T000000Z.tar.gz",
        ])
    );
    let doc = parse_json(&written(&plan, 0)).ok().unwrap();
    assert_eq!(text_of_path(&doc, &["backup"]), "a-b-19700101T000000Z");
    assert_eq!(text_of_path(&doc, &["tenant"]), "a-b");
    assert_eq!(text_of_path(&doc, &["taken_at_utc"]), "19700101T000000Z");
    assert_eq!(text_of_path(&doc, &["consistency_point", "log_tree_head"]), "size 1 root r");
    assert_eq!(text_of_path(&doc, &["file_count"]), "2");
    assert_eq!(text_of_path(&doc, &["sha256", "x"]), sha256_hex(b"1"));
    assert_eq!(shown(&perform_backup(&backup, "h", &held, true)).len(), 1);
}

#[test]
fn a_member_that_stands_twice_counts_once() {
    let held = members(&[("x", "1"), ("x", "2")]);
    let sums = member_checksums(&held).done();
    assert_eq!(compact(&sums), format!("{{\"x\":\"{}\"}}", sha256_hex(b"2")));
}

#[test]
fn a_backup_is_archive_and_sidecar() {
    assert!(check_backup("a", true, true).is_ok());
    assert_eq!(check_backup("a", false, true).err().unwrap(), "no such archive: a");
    assert_eq!(
        check_backup("a", true, false).err().unwrap(),
        "no sidecar for a (a backup is archive+sidecar)"
    );
}

#[test]
fn a_record_needs_checksums() {
    assert!(read_record("{").err().unwrap().starts_with("the sidecar is not valid JSON: "));
    assert_eq!(read_record("[]").err().unwrap(), "the sidecar carries no sha256 map");
    assert_eq!(
        read_record(r#"{"sha256":[]}"#).err().unwrap(),
        "the sidecar carries no sha256 map"
    );
    let record = read_record(r#"{"sha256":{"b":"1","a":7}}"#).ok().unwrap();
    assert_eq!(record.count(), 2);
    assert_eq!(record.at(0), (&"a".to_string(), "".to_string()));
    assert_eq!(record.at(1), (&"b".to_string(), "1".to_string()));
    assert_eq!(record.want("b"), "1");
    assert_eq!(record.want("c"), "");
    assert_eq!(record.tenant(), None);
    assert!(record.head().is_null());
}

#[test]
fn a_fresh_archive_verifies() {
    let held = members(&[("unidpp-operator.yaml", "name: a\n"), ("run/log-journal.jsonl", "")]);
    let verified = passed(&held);
    assert_eq!(verified.archive(), "/b/a.tar.gz");
    assert_eq!(verified.record().tenant(), Some("acme".to_string()));
    assert_eq!(
        verified_line(&verified),
        "verified: 2 member(s), consistency point size 1 root r"
    );
}

#[test]
fn a_damaged_archive_fails() {
    let held = members(&[("a", "1"), ("b", "2"), ("c", "3")]);
    let record = read_record(&sidecar_for(&held)).ok().unwrap();
    let present = strings(&["b", "c", "extra"]);
    assert_eq!(members_to_read(&record, &present), strings(&["b", "c"]));
    let read = members(&[("b", "2"), ("c", "damaged")]);
    let plan = verify_archive("/b/a.tar.gz", record, &present, &read).err().unwrap();
    assert_eq!(
        shown(&plan),
        strings(&[
            "warn unidpp-ops: archive FAILED verification:",
            "warn   missing member a",
            "warn   checksum mismatch: c",
        ])
    );
}

#[test]
fn a_sidecar_without_a_head_says_none() {
    let record = read_record(r#"{"sha256":{}}"#).ok().unwrap();
    let verified = verify_archive("x", record, &vec![], &vec![]).ok().unwrap();
    assert_eq!(verified_line(&verified), "verified: 0 member(s), consistency point None");
}

#[test]
fn only_members_of_the_origin_are_renamed() {
    let name = |n: &str, o: Option<&str>| rewritten_member_name(n, o, "new");
    assert_eq!(name("tenants/acme/x.jsonl", Some("acme")), "tenants/new/x.jsonl");
    assert_eq!(name("tenants/acme", Some("acme")), "tenants/new");
    assert_eq!(name("tenants/acme-cn/x.jsonl", Some("acme")), "tenants/acme-cn/x.jsonl");
    assert_eq!(name("a/tenants/acme/x", Some("acme")), "a/tenants/acme/x");
    assert_eq!(name("tenants/acme/x", None), "tenants/acme/x");
    assert_eq!(name("tenants/a/b/x", Some("a/b")), "tenants/a/b/x");
    assert_eq!(name("tenants//x", Some("")), "tenants/new/x");
}

#[test]
fn a_bundle_shares_one_directory() {
    assert_eq!(bundle_top(&members(&[("acme/a", ""), ("acme/bin/b", "")])), "acme/");
    assert_eq!(bundle_top(&members(&[("acme/a", ""), ("other/b", "")])), "");
    assert_eq!(bundle_top(&members(&[("acme/a", ""), ("b", "")])), "");
    assert_eq!(bundle_top(&members(&[])), "");
}

#[test]
fn a_restore_needs_force_to_replace() {
    let held = members(&[("x", "1")]);
    let verified = passed(&held);
    assert_eq!(
        shown(&cmd_restore(&verified, "/r", "t", false, false, 0).ok().unwrap()),
        strings(&["mkdir /r/tenants/t or die: cannot create /r/tenants/t"])
    );
    assert_eq!(
        cmd_restore(&verified, "/r", "t", true, false, 0).err().unwrap(),
        "tenant 't' already exists — pass --force to replace it (the existing directory is renamed aside, never deleted)"
    );
    assert_eq!(
        shown(&cmd_restore(&verified, "/r", "t", true, true, 0).ok().unwrap()),
        strings(&[
            "rename /r/tenants/t /r/tenants/t.pre-restore.19700101T000000Z or die: cannot rename /r/tenants/t aside",
            "mkdir /r/tenants/t or die: cannot create /r/tenants/t",
        ])
    );
    assert_eq!(tenant_path("/r", "t"), "/r/tenants/t");
}

#[test]
fn a_restore_places_every_member() {
    let held = members(&[
        ("unidpp-operator.yaml", "m"),
        ("tenants/acme/j.jsonl", "j"),
        ("tenants/other/j.jsonl", "o"),
    ]);
    let verified = passed(&held);
    let plan = unpack_into_tenant(
        &verified,
        "/r/tenants/t",
        "t",
        members(&[
            ("unidpp-operator.yaml", "m"),
            ("tenants/acme/j.jsonl", "j"),
            ("tenants/other/j.jsonl", "o"),
        ]),
        false,
    );
    assert_eq!(
        shown(&plan),
        strings(&[
            "place /r/tenants/t/unidpp-operator.yaml m",
            "place /r/tenants/t/tenants/t/j.jsonl j",
            "place /r/tenants/t/tenants/other/j.jsonl o",
            "say restored into tenants/t (origin tenant: acme)",
        ])
    );
    assert_eq!(
        review_line("t"),
        "review the binds in its manifest, then: ./tenants/up.sh t"
    );
}

#[test]
fn a_bundle_restores_like_a_backup() {
    let held = members(&[("acme/unidpp-operator.yaml", "m"), ("acme/tenants/acme/j.jsonl", "j")]);
    let verified = passed(&held);
    let plan = unpack_into_tenant(
        &verified,
        "/t",
        "new",
        members(&[("acme/unidpp-operator.yaml", "m"), ("acme/tenants/acme/j.jsonl", "j")]),
        true,
    );
    assert_eq!(
        shown(&plan),
        strings(&["place /t/unidpp-operator.yaml m", "place /t/tenants/new/j.jsonl j"])
    );
}

#[test]
fn the_restored_manifest_is_rewritten() {
    let plan = rewrite_manifest("/t/m", "name: a\nstate_file: run/log-journal.jsonl\n", "t", false);
    assert_eq!(written(&plan, 0), "name: t\nstate_file: tenants/t/log-journal.jsonl\n");
    assert_eq!(
        shown(&plan)[1],
        "say restored manifest rewritten: journals under tenants/t, name t"
    );
}

#[test]
fn a_drill_is_asked_for() {
    assert!(matches!(cmd_drill(None), Ok(Drill::Restore(false))));
    assert!(matches!(cmd_drill(Some("")), Ok(Drill::Restore(false))));
    assert!(matches!(cmd_drill(Some("--keep")), Ok(Drill::Restore(true))));
    assert!(matches!(cmd_drill(Some("--recover")), Ok(Drill::Recover)));
    assert_eq!(cmd_drill(Some("x")).err().unwrap(), "usage: drill [--keep|--recover]");
}

#[test]
fn a_drill_owns_its_tenant() {
    assert_eq!(drill_tenant(0), "drill-19700101T000000Z");
    assert!(begin_drill("d", false).is_ok());
    assert_eq!(
        begin_drill("d", true).err().unwrap(),
        "drill tenant exists: d (refusing to touch it)"
    );
    assert_eq!(archive_label("drill-1.tar.gz"), "drill-1");
    assert_eq!(archive_label("x"), "x");
}

#[test]
fn a_drill_compares_all_but_the_manifest() {
    let held = members(&[
        ("unidpp-operator.yaml", "m"),
        ("tenants/acme/j.jsonl", "j"),
        ("seed/a.json", "a"),
    ]);
    let verified = passed(&held);
    let expected = expected_files(verified.record(), "t");
    let seen: Vec<(String, String)> =
        expected.iter().map(|e| (e.name.clone(), e.want.clone())).collect();
    assert_eq!(
        seen,
        vec![
            ("seed/a.json".to_string(), sha256_hex(b"a")),
            ("tenants/t/j.jsonl".to_string(), sha256_hex(b"j")),
        ]
    );
}

fn compared(want: &str, bytes: &[u8]) -> Compared {
    Compared { want: want.to_string(), bytes: bytes.to_vec() }
}

#[test]
fn a_drill_ends_at_a_difference() {
    let held = members(&[("x", "1")]);
    let verified = passed(&held);
    let files = vec![compared(&sha256_hex(b"1"), b"1"), compared(&sha256_hex(b"2"), b"3")];
    assert_eq!(count_identical(&files), 1);
    let outcome = judge_parity(verified.record(), "/b", "drill-1", "/r/tenants/d", &files);
    assert_eq!(
        shown(&outcome.plan),
        strings(&[
            "write /b/drill-1.drill.json or die: cannot write the drill report",
            "say   byte parity: 1/2 members identical",
            "rm -r /r/tenants/d",
        ])
    );
    assert!(matches!(
        outcome.ending,
        Ending::Die(m) if m == "drill failed at byte parity (report kept)"
    ));
}

#[test]
fn a_green_drill_reports() {
    let held = members(&[("x", "1")]);
    let verified = passed(&held);
    let files = vec![compared(&sha256_hex(b"1"), b"1")];
    let outcome = judge_parity(verified.record(), "/b", "drill-1", "/r/tenants/d", &files);
    assert!(matches!(outcome.ending, Ending::Done));
    assert_eq!(
        written(&outcome.plan, 0),
        "{\n  \"byte_parity\": \"1/1 members byte-identical after restore\",\n  \"checksums\": \"verified (restore-time)\",\n  \"consistency_point\": \"size 1 root r\",\n  \"drill\": \"acme-19700101T000000Z\",\n  \"files\": 1\n}"
    );
    let end = finish_drill(
        verified.record(),
        "/b",
        "drill-1",
        "d",
        "/r/tenants/d",
        &files,
        Some(true),
        false,
        4,
    );
    assert!(matches!(end.ending, Ending::Done));
    assert_eq!(
        shown(&end.plan),
        strings(&[
            "write /b/drill-1.drill.json or die: cannot write the drill report",
            "say drill: 4/4 report",
            "rm -r /r/tenants/d",
            "say   drill tenant removed (pass --keep to retain it)",
            "say drill: GREEN in 4s — report: backups/drill-1.drill.json",
        ])
    );
    assert!(written(&end.plan, 0).contains("\"manifest_validated\": \"valid\""));
}

#[test]
fn a_drill_tenant_can_be_kept() {
    let held = members(&[]);
    let verified = passed(&held);
    let end =
        finish_drill(verified.record(), "/b", "l", "d", "/t", &vec![], None, true, 0);
    assert_eq!(shown(&end.plan)[2], "say   drill tenant kept: tenants/d");
    assert!(written(&end.plan, 0)
        .contains("\"manifest_validated\": \"skipped (unidpp-config binary not built)\""));
}

#[test]
fn a_manifest_that_does_not_validate_ends_the_drill() {
    let held = members(&[]);
    let verified = passed(&held);
    let end =
        finish_drill(verified.record(), "/b", "l", "d", "/t", &vec![], Some(false), true, 0);
    assert_eq!(shown(&end.plan), strings(&["rm -r /t"]));
    assert!(matches!(
        end.ending,
        Ending::Die(m) if m == "drill failed: the restored manifest does not validate"
    ));
}

#[test]
fn a_recover_drill_unpacks_the_original_shape() {
    let held = members(&[("a/b", "1"), ("c", "2")]);
    let verified = passed(&held);
    assert_eq!(count_sound(verified.record(), &held), 2);
    assert_eq!(
        count_sound(verified.record(), &members(&[("a/b", "1"), ("c", "x"), ("d", "2")])),
        1
    );
    assert_eq!(shown(&unpack_at(held, "/s")), strings(&["place /s/a/b 1", "place /s/c 2"]));
    assert_eq!(recover_label(0), "recover-drill-19700101T000000Z");
}

#[test]
fn a_recover_drill_keeps_its_scratch_on_failure() {
    let green = drill_recover("/b", "l", "drill-1.tar.gz", "/s", 2, 2);
    assert!(matches!(green.ending, Ending::Done));
    assert_eq!(
        shown(&green.plan),
        strings(&[
            "write /b/l.json or die: cannot write the recover report",
            "say   byte parity at original shape: 2/2",
            "rm -r /s",
            "say recover-drill: GREEN — report: backups/l.json",
        ])
    );
    assert_eq!(
        written(&green.plan, 0),
        "{\n  \"byte_parity\": \"2/2 members byte-identical at original paths\",\n  \"drill\": \"recover\",\n  \"label\": \"drill-1.tar.gz\",\n  \"shape\": \"original (no tenant rewriting, no manifest rewriting)\"\n}"
    );
    let red = drill_recover("/b", "l", "a", "/s", 1, 2);
    assert!(matches!(red.ending, Ending::Fail));
    assert_eq!(shown(&red.plan).len(), 2);
}

fn run_file(name: &str, text: &str, alive: bool) -> RunFile {
    RunFile { name: name.to_string(), text: text.to_string(), alive }
}

#[test]
fn a_recovery_waits_for_the_services() {
    let files = vec![
        run_file("trust.pid", "22\n", true),
        run_file("log.pid", " 11 ", true),
        run_file("a.pid", "x", true),
        run_file("b.pid", "5", false),
        run_file("a.log", "7", true),
    ];
    assert_eq!(
        clear_to_recover("/r", &files, &vec![], true).err().unwrap(),
        "a pilot service is still running (pid 11, run/log.pid) — stop first: ./stack.sh stop"
    );
    assert_eq!(pid_in(" 42\n"), Some(42));
    assert_eq!(pid_in("4294967296"), None);
    assert_eq!(pid_in(""), None);
}

#[test]
fn an_interrupted_recovery_is_evidence() {
    let left = strings(&["run", "tenants.pre-recover.2", "run.pre-recover.1"]);
    assert_eq!(
        clear_to_recover("/r", &vec![], &left, false).err().unwrap(),
        "a pre-recover rename-aside already exists (run.pre-recover.1) — a prior recovery may be interrupted; inspect it, move it, or pass --force"
    );
    assert!(clear_to_recover("/r", &vec![], &left, true).is_ok());
    assert!(clear_to_recover("/r", &vec![], &strings(&["run"]), false).is_ok());
}

#[test]
fn a_recovery_sets_aside_and_unpacks() {
    let held = members(&[("unidpp-operator.yaml", "m"), ("seed/a", "s")]);
    let verified = passed(&held);
    let clear = clear_to_recover("/r", &vec![], &vec![], false).ok().unwrap();
    let plan = cmd_recover(&verified, &clear, &strings(&["run", "unidpp-operator.yaml"]), held, 0);
    assert_eq!(
        shown(&plan),
        strings(&[
            "rename /r/unidpp-operator.yaml /r/unidpp-operator.yaml.pre-recover.19700101T000000Z or die: cannot set unidpp-operator.yaml aside",
            "say recover: set aside unidpp-operator.yaml -> unidpp-operator.yaml.pre-recover.19700101T000000Z",
            "rename /r/run /r/run.pre-recover.19700101T000000Z or die: cannot set run aside",
            "say recover: set aside run -> run.pre-recover.19700101T000000Z",
            "place /r/unidpp-operator.yaml m",
            "place /r/seed/a s",
            "say recover: unpacked 2 member(s) at original paths",
            "say recover: done. Bring it back:",
            "say   ./stack.sh start && ./stack.sh status",
            "say   ./seed-pilot.sh        # idempotent (re-runs reuse journaled state)",
            "say the rename-aside state survives under *.pre-recover.19700101T000000Z — remove nothing until the recovery is proven.",
        ])
    );
    assert_eq!(live_names().len(), 6);
}

#[test]
fn a_scratch_directory_is_told_apart() {
    let scratch = scratch_dir("/tmp", &vec![], "unidpp-ops-bundle", 0, 77);
    assert_eq!(scratch.name, "unidpp-ops-bundle-19700101T000000Z-77");
    assert_eq!(scratch.path, "/tmp/unidpp-ops-bundle-19700101T000000Z-77");
    assert_eq!(
        shown(&scratch.plan),
        strings(&[
            "mkdir /tmp/unidpp-ops-bundle-19700101T000000Z-77 or die: cannot create scratch dir /tmp/unidpp-ops-bundle-19700101T000000Z-77",
        ])
    );
}

#[test]
fn two_scratch_directories_of_one_moment_differ() {
    let mut there: Vec<String> = strings(&["other"]);
    let mut made: Vec<String> = vec![];
    for _ in 0..3 {
        let scratch = scratch_dir("/tmp", &there, "s", 0, 7);
        assert!(!there.contains(&scratch.name));
        there.push(scratch.name);
        made.push(scratch.path);
    }
    assert_eq!(
        made,
        strings(&[
            "/tmp/s-19700101T000000Z-7",
            "/tmp/s-19700101T000000Z-7-1",
            "/tmp/s-19700101T000000Z-7-2",
        ])
    );
}
