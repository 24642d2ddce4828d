//! The restore rehearsal: a backup nobody ever restored is a hope, not a
//! capability. The drill owns its drill tenant, proves checksums and byte
//! parity and manifest validity, and removes what it created unless it is
//! told to keep it. The recover drill proves the other path: the backup's
//! members unpacked at their original relative shape under a scratch root.

use vstd::prelude::*;
use vstd::slice::*;
use vstd::string::*;

use crate::archive::Member;
use crate::backup;
use crate::calendar;
use crate::calendar::utc_stamp;
use crate::decimal;
use crate::decimal::decimal_of;
use crate::digest;
use crate::digest::sha256_hex;
use crate::json;
use crate::json::{number_json, pretty, text_json, Fields, JsonView};
use crate::order;
use crate::path;
use crate::path::join;
use crate::plan::{Ending, EndingView, Fault, FaultView, Outcome, Plan, Step, StepView};
use crate::restore;
use crate::restore::rewritten_member_name;
use crate::text;
use crate::text::{cat2, cat3, cat5, chars_of, ends, same_text, text_of};
use crate::verify;
use crate::verify::Record;

verus! {

/// What `drill` is asked for.
pub enum Drill {
    /// The restore rehearsal, and whether its tenant is kept.
    Restore(bool),
    /// The disaster-recovery rehearsal.
    Recover,
}

/// `drill [--keep|--recover]`.
pub fn cmd_drill(arg: Option<&str>) -> (r: Result<Drill, String>)
    ensures
        ({
            let a = match arg {
                Some(t) => t@,
                None => ""@,
            };
            match r {
                Ok(Drill::Recover) => a == "--recover"@,
                Ok(Drill::Restore(keep)) => if keep {
                    a == "--keep"@
                } else {
                    a == ""@
                },
                Err(m) => a != "--recover"@ && a != "--keep"@ && a != ""@ && m@
                    == "usage: drill [--keep|--recover]"@,
            }
        }),
{
    let a: &str = match arg {
        Some(t) => t,
        None => "",
    };
    proof {
        reveal_strlit("");
        reveal_strlit("--keep");
        reveal_strlit("--recover");
        assert(""@.len() == 0 && "--keep"@.len() == 6 && "--recover"@.len() == 9);
    }
    if same_text(a, "--recover") {
        Ok(Drill::Recover)
    } else if same_text(a, "") {
        Ok(Drill::Restore(false))
    } else if same_text(a, "--keep") {
        Ok(Drill::Restore(true))
    } else {
        Err("usage: drill [--keep|--recover]".to_string())
    }
}

/// The tenant that a drill restores into.
pub fn drill_tenant(epoch: u64) -> (r: String)
    ensures
        r@ == "drill-"@ + calendar::stamp(epoch as nat),
{
    cat2("drill-", utc_stamp(epoch).as_str())
}

/// Whether the drill can go on: it never touches a tenant that exists.
pub fn begin_drill(tenant: &str, exists: bool) -> (r: Result<(), String>)
    ensures
        match r {
            Ok(_) => !exists,
            Err(m) => exists && m@ == "drill tenant exists: "@ + tenant@
                + " (refusing to touch it)"@,
        },
{
    if exists {
        Err(cat3("drill tenant exists: ", tenant, " (refusing to touch it)"))
    } else {
        Ok(())
    }
}

/// The label of an archive, by its name.
pub open spec fn label_of(name: Seq<char>) -> Seq<char> {
    if text::ends_with(name, ".tar.gz"@) {
        name.take(name.len() - ".tar.gz"@.len())
    } else {
        name
    }
}

/// The label of an archive, by its name.
pub fn archive_label(name: &str) -> (r: String)
    ensures
        r@ == label_of(name@),
{
    let chars = chars_of(name);
    let suffix = chars_of(".tar.gz");
    if ends(chars.as_slice(), suffix.as_slice()) {
        let stem = slice_subrange(chars.as_slice(), 0, chars.len() - suffix.len());
        assert(stem@ =~= label_of(name@));
        text_of(stem)
    } else {
        name.to_string()
    }
}

// ---------------------------------------------------------------------------
// Byte parity.
// ---------------------------------------------------------------------------

/// A restored file to be compared: its name below the tenant and the checksum
/// recorded for it.
pub struct Expected {
    pub name: String,
    pub want: String,
}

/// An expectation as mathematics.
pub open spec fn expectation(
    name: Seq<char>,
    sums: Map<Seq<char>, JsonView>,
    origin: Option<Seq<char>>,
    tenant: Seq<char>,
) -> (Seq<char>, Seq<char>) {
    (restore::restored_name(name, origin, tenant), verify::text_or_empty(sums[name]))
}

/// Expectations as mathematics.
pub open spec fn expected_views(list: Seq<Expected>) -> Seq<(Seq<char>, Seq<char>)> {
    list.map_values(|e: Expected| (e.name@, e.want@))
}

/// The file is compared: the manifest is rewritten by design.
pub open spec fn is_compared() -> spec_fn((Seq<char>, Seq<char>)) -> bool {
    |e: (Seq<char>, Seq<char>)| e.0 != "unidpp-operator.yaml"@
}

/// The restored files to be compared, in the order of the recorded names.
pub open spec fn expectations(
    sums: Map<Seq<char>, JsonView>,
    origin: Option<Seq<char>>,
    tenant: Seq<char>,
) -> Seq<(Seq<char>, Seq<char>)> {
    order::listed(sums.dom()).map_values(
        |name: Seq<char>| expectation(name, sums, origin, tenant),
    ).filter(is_compared())
}

/// The restored files to be compared with what the sidecar records.
pub fn expected_files(record: &Record, tenant: &str) -> (r: Vec<Expected>)
    ensures
        expected_views(r@) == expectations(
            record.map(),
            verify::recorded_tenant(record.document()),
            tenant@,
        ),
{
    let origin = record.tenant();
    let from: Option<&str> = match &origin {
        Some(o) => Some(o.as_str()),
        None => None,
    };
    let ghost o = verify::recorded_tenant(record.document());
    let ghost sums = record.map();
    let ghost names = order::listed(sums.dom());
    let ghost all = names.map_values(|name: Seq<char>| expectation(name, sums, o, tenant@));
    let total = record.count();
    let mut out: Vec<Expected> = Vec::new();
    let mut i: usize = 0;
    proof {
        reveal(Seq::filter);
        assert(all.take(0).filter(is_compared()) =~= Seq::empty());
        assert(expected_views(out@) =~= Seq::empty());
    }
    while i < total
        invariant
            i <= total,
            total == names.len(),
            total == record.map().dom().len(),
            sums == record.map(),
            names == order::listed(sums.dom()),
            o == match from {
                Some(t) => Some(t@),
                None => None,
            },
            all == names.map_values(|name: Seq<char>| expectation(name, sums, o, tenant@)),
            expected_views(out@) == all.take(i as int).filter(is_compared()),
        decreases total - i,
    {
        let (name, want) = record.at(i);
        let restored = rewritten_member_name(name.as_str(), from, tenant);
        let ghost before = expected_views(out@);
        let ghost e = (restored@, want@);
        proof {
            reveal(Seq::filter);
            assert(all.take(i + 1).drop_last() =~= all.take(i as int));
            assert(all.take(i + 1).last() == e);
        }
        if !same_text(restored.as_str(), "unidpp-operator.yaml") {
            out.push(Expected { name: restored, want });
            assert(expected_views(out@) =~= before.push(e));
        }
        i += 1;
    }
    assert(all.take(i as int) =~= all);
    out
}

/// A file that was read, and the checksum recorded for it.
pub struct Compared {
    pub want: String,
    pub bytes: Vec<u8>,
}

/// The file has the recorded checksum.
pub open spec fn is_identical(file: Compared) -> bool {
    digest::checksum(file.bytes@) == file.want@
}

/// How many of the files have the recorded checksums.
pub open spec fn identical(files: Seq<Compared>) -> nat
    decreases files.len(),
{
    if files.len() == 0 {
        0
    } else {
        identical(files.drop_last()) + if is_identical(files.last()) {
            1nat
        } else {
            0nat
        }
    }
}

proof fn lemma_identical(files: Seq<Compared>)
    ensures
        identical(files) <= files.len(),
        identical(files) == files.len() <==> forall|i: int|
            0 <= i < files.len() ==> is_identical(#[trigger] files[i]),
    decreases files.len(),
{
    if files.len() > 0 {
        let rest = files.drop_last();
        lemma_identical(rest);
        if identical(files) == files.len() {
            assert forall|i: int| 0 <= i < files.len() implies is_identical(
                #[trigger] files[i],
            ) by {
                if i < rest.len() {
                    assert(rest[i] == files[i]);
                }
            }
        }
        if forall|i: int| 0 <= i < files.len() ==> is_identical(#[trigger] files[i]) {
            assert forall|i: int| 0 <= i < rest.len() implies is_identical(#[trigger] rest[i]) by {
                assert(rest[i] == files[i]);
            }
            assert(is_identical(files[files.len() - 1]));
        }
    }
}

/// How many of the files have the recorded checksums.
pub fn count_identical(files: &Vec<Compared>) -> (r: usize)
    ensures
        r == identical(files@),
        r <= files@.len(),
{
    let mut n: usize = 0;
    let mut i: usize = 0;
    assert(files@.take(0) =~= Seq::<Compared>::empty());
    while i < files.len()
        invariant
            i <= files.len(),
            n == identical(files@.take(i as int)),
            n <= i,
        decreases files.len() - i,
    {
        assert(files@.take(i + 1).drop_last() =~= files@.take(i as int));
        assert(files@.take(i + 1).last() == files@[i as int]);
        if same_text(
            sha256_hex(files[i].bytes.as_slice()).as_str(),
            files[i].want.as_str(),
        ) {
            n += 1;
        }
        i += 1;
    }
    assert(files@.take(i as int) =~= files@);
    n
}

/// A count of how many.
pub open spec fn ratio(equal: nat, checked: nat) -> Seq<char> {
    decimal::decimal(equal) + "/"@ + decimal::decimal(checked)
}

pub(crate) fn ratio_text(equal: usize, checked: usize) -> (r: String)
    ensures
        r@ == ratio(equal as nat, checked as nat),
{
    cat3(
        decimal_of(equal as u64).as_str(),
        "/",
        decimal_of(checked as u64).as_str(),
    )
}

// ---------------------------------------------------------------------------
// The restore rehearsal.
// ---------------------------------------------------------------------------

/// The report of a drill.
pub open spec fn drill_report(record: Record, equal: nat, checked: nat) -> Map<
    Seq<char>,
    JsonView,
> {
    Map::<Seq<char>, JsonView>::empty().insert(
        "drill"@,
        json::field(record.document(), "backup"@),
    ).insert("files"@, json::number(record.map().dom().len())).insert(
        "consistency_point"@,
        verify::recorded_head(record.document()),
    ).insert("checksums"@, JsonView::Text("verified (restore-time)"@)).insert(
        "byte_parity"@,
        JsonView::Text(ratio(equal, checked) + " members byte-identical after restore"@),
    )
}

fn report_of(record: &Record, equal: usize, checked: usize) -> (r: Fields)
    ensures
        r@ == drill_report(*record, equal as nat, checked as nat),
{
    let mut report = Fields::new();
    report.put("drill", record.label());
    report.put("files", number_json(record.count() as u64));
    report.put("consistency_point", record.head());
    report.put("checksums", text_json("verified (restore-time)"));
    report.put(
        "byte_parity",
        text_json(
            cat2(
                ratio_text(equal, checked).as_str(),
                " members byte-identical after restore",
            ).as_str(),
        ),
    );
    report
}

/// The path of a drill's report.
pub open spec fn report_path(backups: Seq<char>, label: Seq<char>) -> Seq<char> {
    path::below(backups, label + ".drill.json"@)
}

/// The drill after the comparison: the report is written either way, and a
/// difference ends the drill, with the drill tenant removed.
pub fn judge_parity(
    record: &Record,
    backups: &str,
    label: &str,
    target: &str,
    files: &Vec<Compared>,
) -> (r: Outcome)
    ensures
        ({
            let equal = identical(files@);
            let checked = files@.len();
            let report = JsonView::Object(drill_report(*record, equal, checked));
            let steps = seq![
                StepView::Write {
                    path: report_path(backups@, label@),
                    text: json::pretty_text(report),
                    fault: FaultView::Die("cannot write the drill report"@),
                },
                StepView::Say("  byte parity: "@ + ratio(equal, checked) + " members identical"@),
            ];
            if equal == checked {
                r.plan@ == steps && r.ending@ is Done
            } else {
                r.plan@ == steps.push(StepView::RemoveTree { path: target@ }) && r.ending@
                    == EndingView::Die("drill failed at byte parity (report kept)"@)
            }
        }),
        r.ending@ is Done <==> forall|i: int|
            0 <= i < files@.len() ==> digest::checksum((#[trigger] files@[i]).bytes@)
                == files@[i].want@,
{
    proof {
        law_parity_is_of_every_file(files@, Seq::empty(), Map::empty());
    }
    let equal = count_identical(files);
    let checked = files.len();
    let report = report_of(record, equal, checked).done();
    let mut plan = Plan::new();
    plan.then_do(
        Step::Write {
            path: join(backups, cat2(label, ".drill.json").as_str()),
            text: pretty(&report),
            fault: Fault::Die("cannot write the drill report".to_string()),
        },
    );
    plan.say(
        cat3("  byte parity: ", ratio_text(equal, checked).as_str(), " members identical"),
    );
    if equal == checked {
        Outcome { plan, ending: Ending::Done }
    } else {
        plan.then_do(Step::RemoveTree { path: target.to_string() });
        Outcome {
            plan,
            ending: Ending::Die("drill failed at byte parity (report kept)".to_string()),
        }
    }
}

/// The outcome of the manifest's validation, as the report names it.
pub open spec fn validation(valid: Option<bool>) -> Seq<char> {
    if valid is Some {
        "valid"@
    } else {
        "skipped (unidpp-config binary not built)"@
    }
}

/// The end of a drill, once the manifest has been validated, where the tool
/// for it is there: a manifest that does not validate ends the drill; else
/// the report is completed and the drill tenant removed, unless it is kept.
pub fn finish_drill(
    record: &Record,
    backups: &str,
    label: &str,
    tenant: &str,
    target: &str,
    files: &Vec<Compared>,
    valid: Option<bool>,
    keep: bool,
    seconds: u64,
) -> (r: Outcome)
    ensures
        ({
            let report = JsonView::Object(
                drill_report(*record, identical(files@), files@.len()).insert(
                    "manifest_validated"@,
                    JsonView::Text(validation(valid)),
                ),
            );
            if valid == Some(false) {
                r.plan@ == seq![StepView::RemoveTree { path: target@ }] && r.ending@
                    == EndingView::Die("drill failed: the restored manifest does not validate"@)
            } else {
                r.ending@ is Done && r.plan@ == seq![
                    StepView::Write {
                        path: report_path(backups@, label@),
                        text: json::pretty_text(report),
                        fault: FaultView::Die("cannot write the drill report"@),
                    },
                    StepView::Say("drill: 4/4 report"@),
                ] + (if keep {
                    seq![StepView::Say("  drill tenant kept: tenants/"@ + tenant@)]
                } else {
                    seq![
                        StepView::RemoveTree { path: target@ },
                        StepView::Say("  drill tenant removed (pass --keep to retain it)"@),
                    ]
                }) + seq![
                    StepView::Say(
                        "drill: GREEN in "@ + decimal::decimal(seconds as nat)
                            + "s — report: backups/"@ + label@ + ".drill.json"@,
                    ),
                ]
            }
        }),
{
    let mut plan = Plan::new();
    let outcome: &str = match valid {
        Some(ok) => {
            if !ok {
                plan.then_do(Step::RemoveTree { path: target.to_string() });
                return Outcome {
                    plan,
                    ending: Ending::Die(
                        "drill failed: the restored manifest does not validate".to_string(),
                    ),
                };
            }
            "valid"
        },
        None => "skipped (unidpp-config binary not built)",
    };
    let mut fields = report_of(record, count_identical(files), files.len());
    fields.put("manifest_validated", text_json(outcome));
    let report = fields.done();
    plan.then_do(
        Step::Write {
            path: join(backups, cat2(label, ".drill.json").as_str()),
            text: pretty(&report),
            fault: Fault::Die("cannot write the drill report".to_string()),
        },
    );
    plan.say_text("drill: 4/4 report");
    if keep {
        plan.say(cat2("  drill tenant kept: tenants/", tenant));
    } else {
        plan.then_do(Step::RemoveTree { path: target.to_string() });
        plan.say_text("  drill tenant removed (pass --keep to retain it)");
    }
    plan.say(
        cat5(
            "drill: GREEN in ",
            decimal_of(seconds).as_str(),
            "s — report: backups/",
            label,
            ".drill.json",
        ),
    );
    Outcome { plan, ending: Ending::Done }
}

// ---------------------------------------------------------------------------
// The disaster-recovery rehearsal.
// ---------------------------------------------------------------------------

/// The label of a disaster-recovery rehearsal.
pub fn recover_label(epoch: u64) -> (r: String)
    ensures
        r@ == "recover-drill-"@ + calendar::stamp(epoch as nat),
{
    cat2("recover-drill-", utc_stamp(epoch).as_str())
}

/// The checksum recorded for a name, nothing where there is none.
pub open spec fn wanted(sums: Map<Seq<char>, JsonView>, name: Seq<char>) -> Seq<char> {
    if sums.contains_key(name) {
        verify::text_or_empty(sums[name])
    } else {
        Seq::empty()
    }
}

/// How many of an archive's members have the recorded checksums.
pub open spec fn sound_members(members: Seq<Member>, sums: Map<Seq<char>, JsonView>) -> nat
    decreases members.len(),
{
    if members.len() == 0 {
        0
    } else {
        sound_members(members.drop_last(), sums) + if digest::checksum(members.last().bytes@)
            == wanted(sums, members.last().name@) {
            1nat
        } else {
            0nat
        }
    }
}

/// The report of a disaster-recovery rehearsal.
pub open spec fn recover_report(archive: Seq<char>, equal: nat, checked: nat) -> JsonView {
    JsonView::Object(
        Map::<Seq<char>, JsonView>::empty().insert("drill"@, JsonView::Text("recover"@)).insert(
            "label"@,
            JsonView::Text(archive),
        ).insert(
            "shape"@,
            JsonView::Text("original (no tenant rewriting, no manifest rewriting)"@),
        ).insert(
            "byte_parity"@,
            JsonView::Text(
                ratio(equal, checked) + " members byte-identical at original paths"@,
            ),
        ),
    )
}

/// The steps that unpack an archive's members at their original shape.
pub open spec fn original_shape(members: Seq<Member>, dir: Seq<char>) -> Seq<StepView> {
    members.map_values(
        |m: Member| StepView::Place { path: path::below(dir, m.name@), bytes: m.bytes@ },
    )
}

/// Unpack an archive's members at their original shape below a directory.
pub fn unpack_at(members: Vec<Member>, dir: &str) -> (r: Plan)
    ensures
        r@ == original_shape(members@, dir@),
{
    let ghost all = members@;
    let ghost steps = original_shape(all, dir@);
    let mut plan = Plan::new();
    assert(plan@ =~= steps.take(0));
    for member in it: members
        invariant
            it.seq() == all,
            steps == original_shape(all, dir@),
            plan@ == steps.take(it.index() as int),
    {
        let ghost i = it.index() as int;
        assert(member == all[i]);
        plan.then_do(
            Step::Place { path: join(dir, member.name.as_str()), bytes: member.bytes },
        );
        assert(steps.take(i + 1) =~= steps.take(i).push(steps[i]));
    }
    assert(steps.take(all.len() as int) =~= steps);
    plan
}

/// How many of an archive's members have the recorded checksums.
pub fn count_sound(record: &Record, members: &Vec<Member>) -> (r: usize)
    ensures
        r == sound_members(members@, record.map()),
        r <= members@.len(),
{
    let mut n: usize = 0;
    let mut i: usize = 0;
    assert(members@.take(0) =~= Seq::<Member>::empty());
    while i < members.len()
        invariant
            i <= members.len(),
            n == sound_members(members@.take(i as int), record.map()),
            n <= i,
        decreases members.len() - i,
    {
        assert(members@.take(i + 1).drop_last() =~= members@.take(i as int));
        assert(members@.take(i + 1).last() == members@[i as int]);
        let want = record.want(members[i].name.as_str());
        if same_text(sha256_hex(members[i].bytes.as_slice()).as_str(), want.as_str()) {
            n += 1;
        }
        i += 1;
    }
    assert(members@.take(i as int) =~= members@);
    n
}

/// `drill --recover`, once the members are unpacked: the report, and the
/// verdict. Only a green drill removes its scratch root.
pub fn drill_recover(
    backups: &str,
    label: &str,
    archive: &str,
    scratch: &str,
    equal: usize,
    checked: usize,
) -> (r: Outcome)
    ensures
        ({
            let steps = seq![
                StepView::Write {
                    path: path::below(backups@, label@ + ".json"@),
                    text: json::pretty_text(
                        recover_report(archive@, equal as nat, checked as nat),
                    ),
                    fault: FaultView::Die("cannot write the recover report"@),
                },
                StepView::Say(
                    "  byte parity at original shape: "@ + ratio(equal as nat, checked as nat),
                ),
            ];
            if equal == checked {
                r.ending@ is Done && r.plan@ == steps + seq![
                    StepView::RemoveTree { path: scratch@ },
                    StepView::Say("recover-drill: GREEN — report: backups/"@ + label@ + ".json"@),
                ]
            } else {
                r.ending@ is Fail && r.plan@ == steps
            }
        }),
{
    let parity = ratio_text(equal, checked);
    let mut fields = Fields::new();
    fields.put("drill", text_json("recover"));
    fields.put("label", text_json(archive));
    fields.put("shape", text_json("original (no tenant rewriting, no manifest rewriting)"));
    fields.put(
        "byte_parity",
        text_json(
            cat2(parity.as_str(), " members byte-identical at original paths").as_str(),
        ),
    );
    let report = fields.done();
    let mut plan = Plan::new();
    plan.then_do(
        Step::Write {
            path: join(backups, cat2(label, ".json").as_str()),
            text: pretty(&report),
            fault: Fault::Die("cannot write the recover report".to_string()),
        },
    );
    plan.say(cat2("  byte parity at original shape: ", parity.as_str()));
    if equal != checked {
        return Outcome { plan, ending: Ending::Fail };
    }
    plan.then_do(Step::RemoveTree { path: scratch.to_string() });
    plan.say(cat3("recover-drill: GREEN — report: backups/", label, ".json"));
    Outcome { plan, ending: Ending::Done }
}

// ---------------------------------------------------------------------------
// When a drill is green.
// ---------------------------------------------------------------------------

/// A file is what the archive holds under the name that it was restored from.
pub open spec fn is_restored(
    file: Compared,
    expected: (Seq<char>, Seq<char>),
    sums: Map<Seq<char>, JsonView>,
    held: Map<Seq<char>, Seq<u8>>,
    origin: Option<Seq<char>>,
    tenant: Seq<char>,
) -> bool {
    file.want@ == expected.1 && exists|name: Seq<char>| #[trigger]
        sums.contains_key(name) && expected == expectation(name, sums, origin, tenant)
            && file.bytes@ == held[name]
}

/// The restore rehearsal of an archive that passed the verification finds
/// byte parity, if every restored file holds what the archive holds.
pub proof fn law_drill_finds_parity(
    record: Record,
    present: Seq<Seq<char>>,
    held: Map<Seq<char>, Seq<u8>>,
    origin: Option<Seq<char>>,
    tenant: Seq<char>,
    files: Seq<Compared>,
)
    requires
        verify::recorded(record.document()) is Some,
        verify::archive_faults(record.map(), present, held).len() == 0,
        files.len() == expectations(record.map(), origin, tenant).len(),
        forall|i: int|
            0 <= i < files.len() ==> is_restored(
                #[trigger] files[i],
                expectations(record.map(), origin, tenant)[i],
                record.map(),
                held,
                origin,
                tenant,
            ),
    ensures
        identical(files) == files.len(),
{
    let sums = record.map();
    let all = expectations(sums, origin, tenant);
    verify::law_verification_decides(record, present, held);
    assert forall|i: int| 0 <= i < files.len() implies is_identical(#[trigger] files[i]) by {
        assert(is_restored(files[i], all[i], sums, held, origin, tenant));
        let name = choose|name: Seq<char>| #[trigger]
            sums.contains_key(name) && all[i] == expectation(name, sums, origin, tenant)
                && files[i].bytes@ == held[name];
        assert(sums.contains_key(name));
        assert(verify::is_sound(name, sums[name], present, held));
    }
    lemma_identical(files);
}

/// The disaster-recovery rehearsal of an archive that was just made is green.
pub proof fn law_recover_drill_is_green(members: Seq<Member>)
    requires
        forall|i: int|
            0 <= i < members.len() ==> backup::contents(
                members,
            )[(#[trigger] members[i]).name@] == members[i].bytes@,
    ensures
        sound_members(members, backup::sums_of(backup::contents(members))) == members.len(),
{
    let held = backup::contents(members);
    let sums = backup::sums_of(held);
    assert forall|i: int| 0 <= i < members.len() implies digest::checksum(
        (#[trigger] members[i]).bytes@,
    ) == wanted(sums, members[i].name@) by {
        lemma_is_held(members, i);
    }
    lemma_sound_members(members, sums);
}

proof fn lemma_is_held(members: Seq<Member>, i: int)
    requires
        0 <= i < members.len(),
    ensures
        backup::contents(members).contains_key(members[i].name@),
    decreases members.len(),
{
    if i < members.len() - 1 {
        lemma_is_held(members.drop_last(), i);
    }
}

proof fn lemma_sound_members(members: Seq<Member>, sums: Map<Seq<char>, JsonView>)
    requires
        forall|i: int|
            0 <= i < members.len() ==> digest::checksum((#[trigger] members[i]).bytes@) == wanted(
                sums,
                members[i].name@,
            ),
    ensures
        sound_members(members, sums) == members.len(),
    decreases members.len(),
{
    if members.len() > 0 {
        let rest = members.drop_last();
        assert forall|i: int| 0 <= i < rest.len() implies digest::checksum(
            (#[trigger] rest[i]).bytes@,
        ) == wanted(sums, rest[i].name@) by {
            assert(rest[i] == members[i]);
        }
        lemma_sound_members(rest, sums);
        assert(members[members.len() - 1] == members.last());
    }
}

/// Parity is byte for byte: as many files count as identical as there are
/// exactly where every single one has the checksum that it should have; and so
/// for the members of an archive.
pub proof fn law_parity_is_of_every_file(
    files: Seq<Compared>,
    members: Seq<Member>,
    sums: Map<Seq<char>, JsonView>,
)
    ensures
        identical(files) == files.len() <==> forall|i: int|
            0 <= i < files.len() ==> digest::checksum((#[trigger] files[i]).bytes@)
                == files[i].want@,
        sound_members(members, sums) == members.len() <==> forall|i: int|
            0 <= i < members.len() ==> digest::checksum((#[trigger] members[i]).bytes@) == if
                sums.contains_key(members[i].name@) && sums[members[i].name@] is Text {
                sums[members[i].name@]->Text_0
            } else {
                Seq::empty()
            },
{
    lemma_identical(files);
    if identical(files) == files.len() {
        assert forall|i: int| 0 <= i < files.len() implies digest::checksum(
            (#[trigger] files[i]).bytes@,
        ) == files[i].want@ by {
            assert(is_identical(files[i]));
        }
    }
    if sound_members(members, sums) == members.len() {
        lemma_all_sound(members, sums);
    }
    if forall|i: int|
        0 <= i < members.len() ==> digest::checksum((#[trigger] members[i]).bytes@) == if
            sums.contains_key(members[i].name@) && sums[members[i].name@] is Text {
            sums[members[i].name@]->Text_0
        } else {
            Seq::empty()
        } {
        assert forall|i: int| 0 <= i < members.len() implies digest::checksum(
            (#[trigger] members[i]).bytes@,
        ) == wanted(sums, members[i].name@) by {}
        lemma_sound_members(members, sums);
    }
}

proof fn lemma_all_sound(members: Seq<Member>, sums: Map<Seq<char>, JsonView>)
    ensures
        sound_members(members, sums) <= members.len(),
        sound_members(members, sums) == members.len() ==> forall|i: int|
            0 <= i < members.len() ==> digest::checksum((#[trigger] members[i]).bytes@) == wanted(
                sums,
                members[i].name@,
            ),
    decreases members.len(),
{
    if members.len() > 0 {
        let rest = members.drop_last();
        lemma_all_sound(rest, sums);
        if sound_members(members, sums) == members.len() {
            assert forall|i: int| 0 <= i < members.len() implies digest::checksum(
                (#[trigger] members[i]).bytes@,
            ) == wanted(sums, members[i].name@) by {
                if i < rest.len() {
                    assert(rest[i] == members[i]);
                }
            }
        }
    }
}

/// Nothing that was restored goes without comparison but the manifest, which a
/// restore rewrites: every other member that the sidecar records is expected
/// under its restored name with its recorded checksum.
pub proof fn law_every_member_is_compared(
    sums: Map<Seq<char>, JsonView>,
    origin: Option<Seq<char>>,
    tenant: Seq<char>,
    name: Seq<char>,
)
    requires
        sums.dom().finite(),
        sums.contains_key(name),
        sums[name] is Text,
    ensures
        ({
            let here = restore::restored_name(name, origin, tenant);
            expectations(sums, origin, tenant).contains((here, sums[name]->Text_0)) || here
                == "unidpp-operator.yaml"@
        }),
        forall|i: int|
            0 <= i < expectations(sums, origin, tenant).len() ==> (
            #[trigger] expectations(sums, origin, tenant)[i]).0 != "unidpp-operator.yaml"@,
{
    order::lemma_set_listed(sums.dom());
    let names = order::listed(sums.dom());
    let all = names.map_values(|n: Seq<char>| expectation(n, sums, origin, tenant));
    let here = restore::restored_name(name, origin, tenant);
    assert(names.to_set().contains(name));
    let i = choose|i: int| 0 <= i < names.len() && names[i] == name;
    assert(all[i] == (here, sums[name]->Text_0));
    if here != "unidpp-operator.yaml"@ {
        all.lemma_filter_contains(is_compared(), i);
    }
    assert forall|k: int| 0 <= k < expectations(sums, origin, tenant).len() implies (
    #[trigger] expectations(sums, origin, tenant)[k]).0 != "unidpp-operator.yaml"@ by {
        all.lemma_filter_pred(is_compared(), k);
    }
}

proof fn lemma_report_keys()
    ensures
        "drill"@ != "files"@,
        "drill"@ != "consistency_point"@,
        "drill"@ != "checksums"@,
        "drill"@ != "byte_parity"@,
        "drill"@ != "label"@,
        "drill"@ != "shape"@,
        "files"@ != "consistency_point"@,
        "files"@ != "checksums"@,
        "files"@ != "byte_parity"@,
        "consistency_point"@ != "checksums"@,
        "consistency_point"@ != "byte_parity"@,
        "checksums"@ != "byte_parity"@,
        "label"@ != "shape"@,
        "label"@ != "byte_parity"@,
        "shape"@ != "byte_parity"@,
{
    reveal_strlit("drill");
    reveal_strlit("files");
    reveal_strlit("consistency_point");
    reveal_strlit("checksums");
    reveal_strlit("byte_parity");
    reveal_strlit("label");
    reveal_strlit("shape");
    assert("drill"@.len() == 5 && "drill"@[0] == 'd');
    assert("files"@.len() == 5 && "files"@[0] == 'f');
    assert("label"@.len() == 5 && "label"@[0] == 'l');
    assert("shape"@.len() == 5 && "shape"@[0] == 's');
    assert("consistency_point"@.len() == 17);
    assert("checksums"@.len() == 9);
    assert("byte_parity"@.len() == 11);
}

/// The report of a drill tells what was drilled: the backup and its consistency
/// point as the sidecar records them, the number of its files, and how many of
/// those that were compared are identical. The report of a recovery drill tells
/// the archive and how many of its members came back at their paths.
pub proof fn law_reports_tell_what_was_drilled(
    record: Record,
    archive: Seq<char>,
    equal: nat,
    checked: nat,
)
    ensures
        ({
            let doc = JsonView::Object(drill_report(record, equal, checked));
            let parity = decimal::decimal(equal) + "/"@ + decimal::decimal(checked);
            &&& json::field(doc, "drill"@) == json::field(record.document(), "backup"@)
            &&& json::field(doc, "files"@) == json::number(record.map().dom().len())
            &&& json::field(doc, "consistency_point"@) == json::field(
                json::field(record.document(), "consistency_point"@),
                "log_tree_head"@,
            )
            &&& json::field(doc, "byte_parity"@) == JsonView::Text(
                parity + " members byte-identical after restore"@,
            )
        }),
        ({
            let doc = recover_report(archive, equal, checked);
            let parity = decimal::decimal(equal) + "/"@ + decimal::decimal(checked);
            &&& json::field(doc, "drill"@) == JsonView::Text("recover"@)
            &&& json::field(doc, "label"@) == JsonView::Text(archive)
            &&& json::field(doc, "byte_parity"@) == JsonView::Text(
                parity + " members byte-identical at original paths"@,
            )
        }),
{
    lemma_report_keys();
}

} // verus!
