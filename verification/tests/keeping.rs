//! What the commands keep of the files that they find.

use std::collections::BTreeMap;

use unidpp_ops::archive::Member;
use unidpp_ops::backup::{begin_backup, perform_backup};
use unidpp_ops::bundle::{clear_to_retire, cmd_decommission};
use unidpp_ops::listing::archives_newest_first;
use unidpp_ops::plan::{Plan, Step};
use unidpp_ops::recover::{clear_to_recover, cmd_recover};
use unidpp_ops::restore::{cmd_restore, rewrite_manifest, unpack_into_tenant};
use unidpp_ops::schedule::cmd_prune;
use unidpp_ops::verify::{read_record, verify_archive, Verified};

fn files(list: &[(&str, &str)]) -> BTreeMap<String, Vec<u8>> {
    list.iter().map(|(path, bytes)| (path.to_string(), bytes.as_bytes().to_vec())).collect()
}

fn strings(list: &[&str]) -> Vec<String> {
    list.iter().map(|s| s.to_string()).collect()
}

fn members(list: &[(&str, &str)]) -> Vec<Member> {
    list.iter()
        .map(|(name, bytes)| Member { name: name.to_string(), bytes: bytes.as_bytes().to_vec() })
        .collect()
}

fn in_tree(path: &str, dir: &str) -> bool {
    path == dir || path.starts_with(&format!("{}/", dir))
}

fn perform(plan: &Plan, disk: &mut BTreeMap<String, Vec<u8>>) {
    for step in plan.steps.iter() {
        match step {
            Step::Write { path, text, .. } => {
                disk.insert(path.clone(), text.as_bytes().to_vec());
            }
            Step::Place { path, bytes } => {
                disk.insert(path.clone(), bytes.clone());
            }
            Step::Rename { from, to, .. } => {
                let moving: Vec<String> =
                    disk.keys().filter(|p| in_tree(p, from)).cloned().collect();
                for path in moving {
                    let bytes = disk.remove(&path).unwrap();
                    disk.insert(format!("{}{}", to, &path[from.len()..]), bytes);
                }
            }
            Step::Copy { from, to } | Step::Stage { from, to } => {
                let bytes = disk[from].clone();
                disk.insert(to.clone(), bytes);
            }
            Step::RemoveFile { path } => {
                disk.remove(path);
            }
            Step::RemoveTree { path } => {
                disk.retain(|p, _| !in_tree(p, path));
            }
            Step::Say(_) | Step::Warn(_) => {}
            Step::MakeDir { .. } | Step::MarkExecutable { .. } => {}
        }
    }
}

/// An archive of `acme` that has passed verification against its own sidecar.
fn verified(held: &Vec<Member>) -> Verified {
    verified_at("/b/acme-19700101T000000Z.tar.gz", held)
}

fn verified_at(archive: &str, held: &Vec<Member>) -> Verified {
    let backup = begin_backup("/b", "acme", 0);
    let mut disk = BTreeMap::new();
    perform(&perform_backup(&backup, "h", held, true), &mut disk);
    assert_eq!(disk.len(), 1);
    let sidecar = String::from_utf8(disk.into_values().next().unwrap()).unwrap();
    let record = read_record(&sidecar).ok().unwrap();
    assert_eq!(record.tenant().unwrap(), "acme");
    let names: Vec<String> = held.iter().map(|m| m.name.clone()).collect();
    verify_archive(archive, record, &names, held).ok().unwrap()
}

#[test]
fn a_recovery_brings_the_archive_back_and_loses_nothing() {
    let held = members(&[
        ("run/pids", "old"),
        ("tenants/acme/x", "1"),
        ("seed/a.json", "2"),
        ("seed/a.pre-recover.b", "3"),
    ]);
    let mut disk = files(&[
        ("/r/run/pids", "new"),
        ("/r/run/deep/er", "n"),
        ("/r/runner", "mine"),
        ("/r/registry-journal.jsonl", "j"),
    ]);
    let clear = clear_to_recover("/r", &vec![], &vec![], false).ok().unwrap();
    let plan = cmd_recover(
        &verified(&held),
        &clear,
        &strings(&["run", "runner", "registry-journal.jsonl"]),
        held,
        0,
    );
    perform(&plan, &mut disk);
    assert_eq!(
        disk,
        files(&[
            ("/r/run/pids", "old"),
            ("/r/tenants/acme/x", "1"),
            ("/r/seed/a.json", "2"),
            ("/r/seed/a.pre-recover.b", "3"),
            ("/r/run.pre-recover.19700101T000000Z/pids", "new"),
            ("/r/run.pre-recover.19700101T000000Z/deep/er", "n"),
            ("/r/registry-journal.jsonl.pre-recover.19700101T000000Z", "j"),
            ("/r/runner", "mine"),
        ])
    );
}

#[test]
fn a_restore_by_force_keeps_the_old_tenant() {
    let manifest = "name: acme\nstate_file: run/log-journal.jsonl\n";
    let held = members(&[
        ("run/pids", "old"),
        ("tenants/acme/x", "1"),
        ("unidpp-operator.yaml", manifest),
    ]);
    let mut disk = files(&[
        ("/r/tenants/t/x", "mine"),
        ("/r/tenants/t/run/log", "l"),
        ("/r/tenants/t2/x", "other"),
        ("/r/run/pids", "live"),
    ]);
    let passed = verified(&held);
    perform(&cmd_restore(&passed, "/r", "t", true, true, 0).ok().unwrap(), &mut disk);
    perform(&unpack_into_tenant(&passed, "/r/tenants/t", "t", held, true), &mut disk);
    let path = "/r/tenants/t/unidpp-operator.yaml";
    let text = String::from_utf8(disk[path].clone()).unwrap();
    assert_eq!(text, manifest);
    perform(&rewrite_manifest(path, &text, "t", true), &mut disk);
    assert_eq!(
        disk,
        files(&[
            ("/r/tenants/t/run/pids", "old"),
            ("/r/tenants/t/tenants/t/x", "1"),
            (path, "name: t\nstate_file: tenants/t/log-journal.jsonl\n"),
            ("/r/tenants/t.pre-restore.19700101T000000Z/x", "mine"),
            ("/r/tenants/t.pre-restore.19700101T000000Z/run/log", "l"),
            ("/r/tenants/t2/x", "other"),
            ("/r/run/pids", "live"),
        ])
    );
}

#[test]
fn a_retired_tenant_keeps_every_file() {
    let mut disk = files(&[("/r/tenants/acme/x", "1"), ("/r/tenants/acme2/x", "2")]);
    let leaving = clear_to_retire("/r", "acme", true).ok().unwrap();
    let bundle = verified_at("/b/acme-data-19700101T000000Z.tar.gz", &vec![]);
    perform(&cmd_decommission(&bundle, "/b", &leaving, 0).ok().unwrap(), &mut disk);
    assert_eq!(
        disk,
        files(&[
            ("/r/tenants/acme.retired.19700101T000000Z/x", "1"),
            ("/r/tenants/acme2/x", "2"),
        ])
    );
}

#[test]
fn retention_spares_the_newest() {
    let there = files(&[
        ("/b/c.tar.gz", "3"),
        ("/b/c.json", "{3}"),
        ("/b/b.tar.gz", "2"),
        ("/b/b.json", "{2}"),
        ("/b/a.tar.gz", "1"),
        ("/b/a.json", "{1}"),
        ("/b/drill-1.json", "report"),
    ]);
    let archives = strings(&["c.tar.gz", "b.tar.gz", "a.tar.gz"]);
    let mut disk = there.clone();
    perform(&cmd_prune("/b", &archives, 1, false), &mut disk);
    assert_eq!(disk, there);
    perform(&cmd_prune("/b", &archives, 1, true), &mut disk);
    assert_eq!(
        disk,
        files(&[("/b/c.tar.gz", "3"), ("/b/c.json", "{3}"), ("/b/drill-1.json", "report")])
    );
}

#[test]
fn retention_goes_by_the_stamp_whatever_the_label() {
    let mut disk = files(&[
        ("/b/acme-20260901T000000Z.tar.gz", "new"),
        ("/b/acme-20260901T000000Z.json", "{new}"),
        ("/b/drill-20250101T000000Z.tar.gz", "old"),
        ("/b/drill-20250101T000000Z.json", "{old}"),
    ]);
    let archives = archives_newest_first(&strings(&[
        "drill-20250101T000000Z.json",
        "drill-20250101T000000Z.tar.gz",
        "acme-20260901T000000Z.tar.gz",
        "acme-20260901T000000Z.json",
    ]));
    perform(&cmd_prune("/b", &archives, 1, true), &mut disk);
    assert_eq!(
        disk,
        files(&[
            ("/b/acme-20260901T000000Z.tar.gz", "new"),
            ("/b/acme-20260901T000000Z.json", "{new}"),
        ])
    );
}
