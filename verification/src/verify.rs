//! The checksums-only verification that every restore and every rehearsal
//! begins with: each member listed in the sidecar must be present in the
//! archive and hash to the recorded value.

use vstd::prelude::*;
use vstd::string::*;

use crate::archive::Member;
use crate::backup;
use crate::backup::{contains_name, Backup};
use crate::decimal;
use crate::decimal::decimal_of;
use crate::digest;
use crate::digest::sha256_hex;
use crate::json;
use crate::json::{parse_json, plain, Json, JsonView};
use crate::order;
use crate::plan::{Plan, Step, StepView};
use crate::text;
use crate::text::{cat2, cat3, cat4, same_text};

verus! {

// ---------------------------------------------------------------------------
// What a sidecar records.
// ---------------------------------------------------------------------------

/// The checksums that a sidecar records.
pub open spec fn recorded(doc: JsonView) -> Option<Map<Seq<char>, JsonView>> {
    match json::get(doc, "sha256"@) {
        Some(JsonView::Object(map)) => Some(map),
        _ => None,
    }
}

/// The text of a value that is one, or nothing.
pub open spec fn text_or_empty(j: JsonView) -> Seq<char> {
    match j {
        JsonView::Text(t) => t,
        _ => Seq::empty(),
    }
}

/// The consistency point that a sidecar records.
pub open spec fn recorded_head(doc: JsonView) -> JsonView {
    json::field(json::field(doc, "consistency_point"@), "log_tree_head"@)
}

/// The tenant that a sidecar records.
pub open spec fn recorded_tenant(doc: JsonView) -> Option<Seq<char>> {
    match json::get(doc, "tenant"@) {
        Some(v) => json::as_text(v),
        None => None,
    }
}

/// A sidecar that records checksums.
pub struct Record {
    doc: Json,
    sums: Vec<(String, Json)>,
}

impl Record {
    /// The sidecar's document. The list of checksums beside it repeats what the
    /// document holds.
    pub closed spec fn document(self) -> JsonView {
        self.doc@
    }

    /// The checksums by name.
    pub open spec fn map(self) -> Map<Seq<char>, JsonView> {
        recorded(self.document())->0
    }

    #[verifier::type_invariant]
    spec fn inv(self) -> bool {
        &&& recorded(self.doc@) is Some
        &&& recorded(self.doc@)->0.dom().finite()
        &&& order::ascending(json::keys_of(self.sums@))
        &&& json::keys_of(self.sums@) == order::listed(recorded(self.doc@)->0.dom())
        &&& json::keys_of(self.sums@).to_set() == recorded(self.doc@)->0.dom()
        &&& self.sums@.len() == recorded(self.doc@)->0.dom().len()
        &&& forall|i: int|
            0 <= i < self.sums@.len() ==> (#[trigger] self.sums@[i]).1@ == recorded(
                self.doc@,
            )->0[self.sums@[i].0@]
    }

    /// The number of members that the sidecar records.
    pub fn count(&self) -> (r: usize)
        ensures
            r == self.map().dom().len(),
            r == order::listed(self.map().dom()).len(),
            order::listed(self.map().dom()).to_set() == self.map().dom(),
    {
        proof {
            use_type_invariant(self);
        }
        self.sums.len()
    }

    /// The name and the checksum at a position, in the order of the names.
    pub fn at(&self, i: usize) -> (r: (&String, String))
        requires
            i < self.map().dom().len(),
        ensures
            r.0@ == order::listed(self.map().dom())[i as int],
            r.1@ == text_or_empty(self.map()[r.0@]),
    {
        proof {
            use_type_invariant(self);
            assert(json::keys_of(self.sums@)[i as int] == self.sums@[i as int].0@);
        }
        let want: String = match self.sums[i].1.as_text() {
            Some(t) => t.clone(),
            None => String::new(),
        };
        (&self.sums[i].0, want)
    }

    /// The checksum recorded for a name, nothing where there is none.
    pub fn want(&self, name: &str) -> (r: String)
        ensures
            r@ == if self.map().contains_key(name@) {
                text_or_empty(self.map()[name@])
            } else {
                Seq::empty()
            },
    {
        proof {
            use_type_invariant(self);
        }
        match self.doc.get("sha256") {
            Some(sums) => match sums.get(name) {
                Some(v) => match v.as_text() {
                    Some(t) => t.clone(),
                    None => String::new(),
                },
                None => String::new(),
            },
            None => String::new(),
        }
    }

    /// The tenant that the sidecar records.
    pub fn tenant(&self) -> (r: Option<String>)
        ensures
            match r {
                Some(t) => recorded_tenant(self.document()) == Some(t@),
                None => recorded_tenant(self.document()) is None,
            },
    {
        match self.doc.get("tenant") {
            Some(v) => match v.as_text() {
                Some(t) => Some(t.clone()),
                None => None,
            },
            None => None,
        }
    }

    /// The consistency point that the sidecar records.
    pub fn head(&self) -> (r: Json)
        ensures
            r@ == recorded_head(self.document()),
    {
        match self.doc.get("consistency_point") {
            Some(point) => match point.get("log_tree_head") {
                Some(v) => v.copy(),
                None => Json::Null,
            },
            None => Json::Null,
        }
    }

    /// The label that the sidecar records.
    pub fn label(&self) -> (r: Json)
        ensures
            r@ == json::field(self.document(), "backup"@),
    {
        match self.doc.get("backup") {
            Some(v) => v.copy(),
            None => Json::Null,
        }
    }
}

/// What is wrong with a sidecar's text, if anything.
pub open spec fn record_fault(sidecar: Seq<char>) -> Option<Seq<char>> {
    match json::parsed(sidecar) {
        Err(e) => Some("the sidecar is not valid JSON: "@ + e),
        Ok(doc) => if recorded(doc) is Some {
            None
        } else {
            Some("the sidecar carries no sha256 map"@)
        },
    }
}

/// What a sidecar's text records, or what is wrong with it.
pub fn read_record(sidecar: &str) -> (r: Result<Record, String>)
    ensures
        match r {
            Ok(record) => record_fault(sidecar@) is None && json::parsed(sidecar@) is Ok
                && record.document() == json::parsed(sidecar@)->Ok_0,
            Err(m) => record_fault(sidecar@) == Some(m@),
        },
{
    let doc = match parse_json(sidecar) {
        Ok(doc) => doc,
        Err(e) => {
            return Err(cat2("the sidecar is not valid JSON: ", e.as_str()));
        },
    };
    let sums: Option<Vec<(String, Json)>> = match doc.get("sha256") {
        Some(v) => v.entries(),
        None => None,
    };
    match sums {
        Some(sums) => Ok(Record { doc, sums }),
        None => Err("the sidecar carries no sha256 map".to_string()),
    }
}

// ---------------------------------------------------------------------------
// The verification.
// ---------------------------------------------------------------------------

/// What is missing of a backup: it is archive plus sidecar.
pub fn check_backup(archive: &str, archive_is_file: bool, sidecar_is_file: bool) -> (r: Result<
    (),
    String,
>)
    ensures
        match r {
            Ok(_) => archive_is_file && sidecar_is_file,
            Err(m) => if !archive_is_file {
                m@ == "no such archive: "@ + archive@
            } else {
                !sidecar_is_file && m@ == "no sidecar for "@ + archive@
                    + " (a backup is archive+sidecar)"@
            },
        },
{
    if !archive_is_file {
        Err(cat2("no such archive: ", archive))
    } else if !sidecar_is_file {
        Err(cat3("no sidecar for ", archive, " (a backup is archive+sidecar)"))
    } else {
        Ok(())
    }
}

/// The member is present and hashes to the recorded value.
pub open spec fn is_sound(
    name: Seq<char>,
    want: JsonView,
    present: Seq<Seq<char>>,
    held: Map<Seq<char>, Seq<u8>>,
) -> bool {
    present.contains(name) && held.contains_key(name) && digest::checksum(held[name])
        == text_or_empty(want)
}

/// What is wrong with a recorded member.
pub open spec fn fault_of(name: Seq<char>, present: Seq<Seq<char>>) -> Seq<char> {
    if present.contains(name) {
        "checksum mismatch: "@ + name
    } else {
        "missing member "@ + name
    }
}

/// What is wrong with the recorded members, in the given order.
pub open spec fn faults(
    names: Seq<Seq<char>>,
    sums: Map<Seq<char>, JsonView>,
    present: Seq<Seq<char>>,
    held: Map<Seq<char>, Seq<u8>>,
) -> Seq<Seq<char>>
    decreases names.len(),
{
    if names.len() == 0 {
        Seq::empty()
    } else {
        let before = faults(names.drop_last(), sums, present, held);
        if is_sound(names.last(), sums[names.last()], present, held) {
            before
        } else {
            before.push(fault_of(names.last(), present))
        }
    }
}

/// What is wrong with an archive by its sidecar.
pub open spec fn archive_faults(
    sums: Map<Seq<char>, JsonView>,
    present: Seq<Seq<char>>,
    held: Map<Seq<char>, Seq<u8>>,
) -> Seq<Seq<char>> {
    faults(order::listed(sums.dom()), sums, present, held)
}

/// The recorded members that are present: those to be read and hashed.
pub fn members_to_read(record: &Record, present: &Vec<String>) -> (r: Vec<String>)
    ensures
        text::views(r@) == order::listed(record.map().dom()).filter(
            |name: Seq<char>| text::views(present@).contains(name),
        ),
{
    let ghost names = order::listed(record.map().dom());
    let ghost there = |name: Seq<char>| text::views(present@).contains(name);
    let total = record.count();
    proof {
        use_type_invariant(record);
        assert(names.len() == total);
    }
    let mut out: Vec<String> = Vec::new();
    let mut i: usize = 0;
    proof {
        reveal(Seq::filter);
        assert(names.take(0).filter(there) =~= Seq::<Seq<char>>::empty());
        assert(text::views(out@) =~= Seq::<Seq<char>>::empty());
    }
    while i < total
        invariant
            i <= total,
            total == record.map().dom().len(),
            total == names.len(),
            names == order::listed(record.map().dom()),
            there == (|name: Seq<char>| text::views(present@).contains(name)),
            text::views(out@) == names.take(i as int).filter(there),
        decreases total - i,
    {
        let (name, _want) = record.at(i);
        proof {
            reveal(Seq::filter);
            assert(names.take(i + 1).drop_last() =~= names.take(i as int));
            assert(names.take(i + 1).last() == name@);
        }
        let ghost before = text::views(out@);
        if contains_name(present, name.as_str()) {
            out.push(name.clone());
            assert(text::views(out@) =~= before.push(name@));
        }
        i += 1;
    }
    assert(names.take(i as int) =~= names);
    out
}

/// Where the last member with a name stands.
fn find_member(members: &Vec<Member>, name: &str) -> (r: Option<usize>)
    ensures
        match r {
            Some(i) => i < members@.len() && backup::contents(members@).contains_key(name@)
                && backup::contents(members@)[name@] == members@[i as int].bytes@,
            None => !backup::contents(members@).contains_key(name@),
        },
{
    let mut i: usize = members.len();
    assert(members@.take(i as int) =~= members@);
    while i > 0
        invariant
            i <= members@.len(),
            backup::contents(members@).contains_key(name@) == backup::contents(
                members@.take(i as int),
            ).contains_key(name@),
            backup::contents(members@)[name@] == backup::contents(
                members@.take(i as int),
            )[name@],
        decreases i,
    {
        assert(members@.take(i as int).drop_last() =~= members@.take(i - 1));
        i -= 1;
        if same_text(members[i].name.as_str(), name) {
            return Some(i);
        }
    }
    None
}

/// An archive that has passed the verification, and its sidecar.
pub struct Verified {
    archive: String,
    record: Record,
}

impl Verified {
    /// The archive's path.
    pub closed spec fn path(self) -> Seq<char> {
        self.archive@
    }

    /// What its sidecar records.
    pub closed spec fn recorded(self) -> Record {
        self.record
    }

    /// The archive's path.
    pub fn archive(&self) -> (r: &str)
        ensures
            r@ == self.path(),
    {
        self.archive.as_str()
    }

    /// What its sidecar records.
    pub fn record(&self) -> (r: &Record)
        ensures
            *r == self.recorded(),
    {
        &self.record
    }
}

/// The steps that report a failed verification.
pub open spec fn failure_report(bad: Seq<Seq<char>>) -> Seq<StepView> {
    seq![StepView::Warn("unidpp-ops: archive FAILED verification:"@)] + bad.map_values(
        |b: Seq<char>| StepView::Warn("  "@ + b),
    )
}

/// The verification of an archive: the members that are present, those of
/// them that were read, and the sidecar's record decide whether it passes.
pub fn verify_archive(
    archive: &str,
    record: Record,
    present: &Vec<String>,
    members: &Vec<Member>,
) -> (r: Result<Verified, Plan>)
    ensures
        ({
            let bad = archive_faults(
                record.map(),
                text::views(present@),
                backup::contents(members@),
            );
            match r {
                Ok(v) => bad.len() == 0 && v.path() == archive@ && v.recorded() == record,
                Err(plan) => bad.len() > 0 && plan@ == failure_report(bad),
            }
        }),
        r is Ok <==> forall|name: Seq<char>| #[trigger]
            record.map().contains_key(name) ==> is_sound(
                name,
                record.map()[name],
                text::views(present@),
                backup::contents(members@),
            ),
{
    let ghost names = order::listed(record.map().dom());
    let ghost sums = record.map();
    let ghost here = text::views(present@);
    let ghost held = backup::contents(members@);
    let total = record.count();
    proof {
        use_type_invariant(&record);
        assert(names.len() == total);
        law_verification_decides(record, here, held);
    }
    let mut bad: Vec<String> = Vec::new();
    let mut i: usize = 0;
    assert(names.take(0) =~= Seq::<Seq<char>>::empty());
    assert(text::views(bad@) =~= Seq::<Seq<char>>::empty());
    while i < total
        invariant
            i <= total,
            total == names.len(),
            total == record.map().dom().len(),
            names == order::listed(record.map().dom()),
            sums == record.map(),
            here == text::views(present@),
            held == backup::contents(members@),
            text::views(bad@) == faults(names.take(i as int), sums, here, held),
        decreases total - i,
    {
        let (name, want) = record.at(i);
        let ghost before = text::views(bad@);
        assert(names.take(i + 1).drop_last() =~= names.take(i as int));
        assert(names.take(i + 1).last() == name@);
        if !contains_name(present, name.as_str()) {
            bad.push(cat2("missing member ", name.as_str()));
            assert(text::views(bad@) =~= before.push(fault_of(name@, here)));
        } else {
            let sound = match find_member(members, name.as_str()) {
                Some(k) => same_text(
                    sha256_hex(members[k].bytes.as_slice()).as_str(),
                    want.as_str(),
                ),
                None => false,
            };
            if !sound {
                bad.push(cat2("checksum mismatch: ", name.as_str()));
                assert(text::views(bad@) =~= before.push(fault_of(name@, here)));
            }
        }
        i += 1;
    }
    assert(names.take(i as int) =~= names);
    assert(text::views(bad@).len() == bad@.len());
    if bad.len() == 0 {
        return Ok(Verified { archive: archive.to_string(), record });
    }
    let mut plan = Plan::new();
    plan.then_do(Step::Warn("unidpp-ops: archive FAILED verification:".to_string()));
    let ghost all = failure_report(text::views(bad@));
    assert(plan@ =~= all.take(1));
    let mut j: usize = 0;
    while j < bad.len()
        invariant
            j <= bad.len(),
            all == failure_report(text::views(bad@)),
            plan@ == all.take(j + 1),
        decreases bad.len() - j,
    {
        plan.then_do(Step::Warn(cat2("  ", bad[j].as_str())));
        assert(all[j + 1] == StepView::Warn("  "@ + text::views(bad@)[j as int]));
        assert(all.take(j + 2) =~= all.take(j + 1).push(all[j + 1]));
        j += 1;
    }
    assert(all.take(j + 1) =~= all);
    Err(plan)
}

/// The line that reports a passed verification.
pub fn verified_line(verified: &Verified) -> (r: String)
    ensures
        r@ == "verified: "@ + decimal::decimal(verified.recorded().map().dom().len())
            + " member(s), consistency point "@ + json::prose(
            recorded_head(verified.recorded().document()),
        ),
{
    let record = verified.record();
    cat4(
        "verified: ",
        decimal_of(record.count() as u64).as_str(),
        " member(s), consistency point ",
        plain(&record.head()).as_str(),
    )
}

// ---------------------------------------------------------------------------
// What the verification decides.
// ---------------------------------------------------------------------------

proof fn lemma_no_faults(
    names: Seq<Seq<char>>,
    sums: Map<Seq<char>, JsonView>,
    present: Seq<Seq<char>>,
    held: Map<Seq<char>, Seq<u8>>,
)
    ensures
        faults(names, sums, present, held).len() == 0 <==> forall|i: int|
            0 <= i < names.len() ==> is_sound(#[trigger] names[i], sums[names[i]], present, held),
    decreases names.len(),
{
    if names.len() > 0 {
        let rest = names.drop_last();
        lemma_no_faults(rest, sums, present, held);
        if faults(names, sums, present, held).len() == 0 {
            assert forall|i: int| 0 <= i < names.len() implies is_sound(
                #[trigger] names[i],
                sums[names[i]],
                present,
                held,
            ) by {
                if i < rest.len() {
                    assert(rest[i] == names[i]);
                }
            }
        }
        if forall|i: int|
            0 <= i < names.len() ==> is_sound(#[trigger] names[i], sums[names[i]], present, held) {
            assert forall|i: int| 0 <= i < rest.len() implies is_sound(
                #[trigger] rest[i],
                sums[rest[i]],
                present,
                held,
            ) by {
                assert(rest[i] == names[i]);
            }
            assert(is_sound(names[names.len() - 1], sums[names.last()], present, held));
        }
    }
}

/// An archive passes the verification exactly when every member that the
/// sidecar records is present and hashes to the recorded value.
pub proof fn law_verification_decides(
    record: Record,
    present: Seq<Seq<char>>,
    held: Map<Seq<char>, Seq<u8>>,
)
    requires
        recorded(record.document()) is Some,
    ensures
        archive_faults(record.map(), present, held).len() == 0 <==> forall|name: Seq<char>|
            #[trigger]
            record.map().contains_key(name) ==> is_sound(name, record.map()[name], present, held),
{
    let sums = record.map();
    let names = order::listed(sums.dom());
    json::lemma_inner_keys_listed(record.doc, "sha256"@);
    lemma_no_faults(names, sums, present, held);
    if archive_faults(sums, present, held).len() == 0 {
        assert forall|name: Seq<char>| #[trigger] sums.contains_key(name) implies is_sound(
            name,
            sums[name],
            present,
            held,
        ) by {
            assert(names.to_set().contains(name));
            let i = choose|i: int| 0 <= i < names.len() && names[i] == name;
            assert(is_sound(names[i], sums[names[i]], present, held));
        }
    }
    if forall|name: Seq<char>| #[trigger]
        sums.contains_key(name) ==> is_sound(name, sums[name], present, held) {
        assert forall|i: int| 0 <= i < names.len() implies is_sound(
            #[trigger] names[i],
            sums[names[i]],
            present,
            held,
        ) by {
            assert(names.to_set().contains(names[i]));
            assert(sums.contains_key(names[i]));
        }
    }
}

/// What an archive holds is held by a member.
pub proof fn lemma_contents(members: Seq<Member>)
    ensures
        backup::contents(members).dom().finite(),
        forall|name: Seq<char>| #[trigger]
            backup::contents(members).contains_key(name) ==> backup::names_of(members).contains(
                name,
            ),
    decreases members.len(),
{
    if members.len() > 0 {
        let rest = members.drop_last();
        lemma_contents(rest);
        assert forall|name: Seq<char>| #[trigger]
            backup::contents(members).contains_key(name) implies backup::names_of(
            members,
        ).contains(name) by {
            if name == members.last().name@ {
                assert(backup::names_of(members)[members.len() - 1] == name);
            } else {
                assert(backup::contents(rest).contains_key(name));
                let i = choose|i: int|
                    0 <= i < rest.len() && backup::names_of(rest)[i] == name;
                assert(backup::names_of(members)[i] == name);
            }
        }
    }
}

/// An archive that was just made verifies against its sidecar: what the
/// sidecar records is what the archive holds. It also records its tenant and
/// its consistency point.
pub proof fn law_fresh_archive_verifies(
    kind: Seq<char>,
    label: Seq<char>,
    tenant: Seq<char>,
    taken_at: Seq<char>,
    head: Seq<char>,
    members: Seq<Member>,
)
    ensures
        ({
            let held = backup::contents(members);
            let doc = backup::sidecar_doc(kind, label, tenant, taken_at, head, held);
            &&& recorded(doc) == Some(backup::sums_of(held))
            &&& archive_faults(recorded(doc)->0, backup::names_of(members), held).len() == 0
            &&& recorded_tenant(doc) == Some(tenant)
            &&& recorded_head(doc) == JsonView::Text(head)
        }),
{
    lemma_keys_differ();
    let held = backup::contents(members);
    let sums = backup::sums_of(held);
    let names = order::listed(sums.dom());
    lemma_contents(members);
    assert(sums.dom() =~= held.dom());
    order::lemma_set_listed(sums.dom());
    let here = backup::names_of(members);
    assert forall|i: int| 0 <= i < names.len() implies is_sound(
        #[trigger] names[i],
        sums[names[i]],
        here,
        held,
    ) by {
        assert(names.to_set().contains(names[i]));
        assert(held.contains_key(names[i]));
    }
    lemma_no_faults(names, sums, here, held);
}

/// A backup verifies: the sidecar that it writes is read back without a
/// complaint, names the tenant and the consistency point, and finds nothing
/// wrong with the archive.
pub proof fn law_backup_verifies(
    backup: Backup,
    head: Seq<char>,
    members: Seq<Member>,
    sidecar: Seq<char>,
)
    requires
        json::parsed(sidecar) is Ok,
        json::parsed(sidecar)->Ok_0 == backup::backup_doc(backup, head, members),
    ensures
        record_fault(sidecar) is None,
        ({
            let doc = json::parsed(sidecar)->Ok_0;
            &&& archive_faults(
                recorded(doc)->0,
                backup::names_of(members),
                backup::contents(members),
            ).len() == 0
            &&& recorded_tenant(doc) == Some(backup.tenant@)
            &&& recorded_head(doc) == JsonView::Text(head)
        }),
{
    law_fresh_archive_verifies(
        "backup"@,
        backup.label@,
        backup.tenant@,
        backup.taken_at@,
        head,
        members,
    );
}

proof fn lemma_keys_differ()
    ensures
        "tenant"@ != "sha256"@,
        "tenant"@ != "file_count"@,
        "tenant"@ != "consistency_point"@,
        "tenant"@ != "taken_at_utc"@,
        "consistency_point"@ != "sha256"@,
        "consistency_point"@ != "file_count"@,
{
    reveal_strlit("sha256");
    reveal_strlit("file_count");
    reveal_strlit("consistency_point");
    reveal_strlit("taken_at_utc");
    reveal_strlit("tenant");
    assert("tenant"@[0] != "sha256"@[0]);
    assert("tenant"@.len() == 6);
    assert("file_count"@.len() == 10);
    assert("consistency_point"@.len() == 17);
    assert("taken_at_utc"@.len() == 12);
}

/// A sidecar is read back as it was written: what the archive is, whose and
/// from when, how many files it has, and of each file the checksum of its bytes.
pub proof fn law_sidecars_are_read_back(
    kind: Seq<char>,
    label: Seq<char>,
    tenant: Seq<char>,
    taken_at: Seq<char>,
    head: Seq<char>,
    held: Map<Seq<char>, Seq<u8>>,
    name: Seq<char>,
)
    requires
        kind == "backup"@ || kind == "bundle"@,
        held.contains_key(name),
    ensures
        ({
            let doc = backup::sidecar_doc(kind, label, tenant, taken_at, head, held);
            &&& json::field(doc, kind) == JsonView::Text(label)
            &&& json::field(doc, "tenant"@) == JsonView::Text(tenant)
            &&& json::field(doc, "taken_at_utc"@) == JsonView::Text(taken_at)
            &&& json::field(json::field(doc, "consistency_point"@), "log_tree_head"@)
                == JsonView::Text(head)
            &&& json::field(doc, "file_count"@) == json::number(held.dom().len())
            &&& json::field(json::field(doc, "sha256"@), name) == JsonView::Text(
                digest::checksum(held[name]),
            )
            &&& recorded_tenant(doc) == Some(tenant)
            &&& recorded_head(doc) == JsonView::Text(head)
        }),
{
    lemma_keys_differ();
    reveal_strlit("backup");
    reveal_strlit("bundle");
    reveal_strlit("sha256");
    reveal_strlit("file_count");
    reveal_strlit("consistency_point");
    reveal_strlit("taken_at_utc");
    reveal_strlit("tenant");
    assert("backup"@.len() == 6 && "backup"@[0] == 'b');
    assert("bundle"@.len() == 6 && "bundle"@[0] == 'b');
    assert("sha256"@[0] == 's' && "tenant"@[0] == 't');
    assert("file_count"@.len() == 10);
    assert("consistency_point"@.len() == 17);
    assert("taken_at_utc"@.len() == 12);
    assert("sha256"@.len() == 6);
}

/// An archive is found sound exactly where each recorded file is among its
/// members and has the recorded checksum, byte for byte.
pub proof fn law_every_recorded_file_is_verified(
    record: Record,
    present: Seq<Seq<char>>,
    held: Map<Seq<char>, Seq<u8>>,
    name: Seq<char>,
)
    requires
        recorded(record.document()) is Some,
        archive_faults(record.map(), present, held).len() == 0,
        json::field(json::field(record.document(), "sha256"@), name) is Text,
    ensures
        present.contains(name),
        held.contains_key(name),
        JsonView::Text(digest::checksum(held[name])) == json::field(
            json::field(record.document(), "sha256"@),
            name,
        ),
{
    law_verification_decides(record, present, held);
    assert(record.map().contains_key(name));
}

} // verus!
