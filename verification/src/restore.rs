//! The restore: a verified archive landing as a tenant. Restore refuses to
//! overwrite an existing tenant without `--force`, and it needs an archive
//! whose checksums have been verified.

use vstd::prelude::*;
use vstd::slice::*;
use vstd::string::*;

use crate::archive::Member;
use crate::backup;
use crate::calendar;
use crate::calendar::utc_stamp;
use crate::path;
use crate::path::join;
use crate::plan;
use crate::plan::{Fault, FaultView, Plan, Step, StepView};
use crate::rewrite;
use crate::rewrite::{rewrite_name, rewrite_state_files};
use crate::text;
use crate::text::{begins, cat2, cat3, cat4, cat5, chars_of, every, lead_of, same_chars, text_of, Class};
use crate::verify;
use crate::verify::Verified;

verus! {

// ---------------------------------------------------------------------------
// Where a member lands.
// ---------------------------------------------------------------------------

/// The name is `tenants/<tenant>` or lies below.
pub open spec fn lies_in(name: Seq<char>, tenant: Seq<char>) -> bool {
    let dir = "tenants/"@ + tenant;
    name == dir || text::starts_with(name, dir + "/"@)
}

/// The member belongs to the tenant, whose name is one component.
pub open spec fn is_of(name: Seq<char>, tenant: Seq<char>) -> bool {
    text::all_in(tenant, Class::Except('/')) && lies_in(name, tenant)
}

/// The member's name after the restore: a member of the origin tenant becomes
/// one of the restored tenant, any other keeps its name.
pub open spec fn restored_name(
    name: Seq<char>,
    origin: Option<Seq<char>>,
    tenant: Seq<char>,
) -> Seq<char> {
    match origin {
        Some(o) => if is_of(name, o) {
            "tenants/"@ + tenant + name.skip(("tenants/"@ + o).len() as int)
        } else {
            name
        },
        None => name,
    }
}

/// The member-name mapping restore applies: only the backup's OWN tenant
/// journals rewrite into the restored one (they are the deployment's live
/// state); other tenants' journals are archive material and keep their
/// original tenant path — rewriting them all would collide sibling tenants
/// onto the same filenames.
pub fn rewritten_member_name(name: &str, origin: Option<&str>, tenant: &str) -> (r: String)
    ensures
        r@ == restored_name(
            name@,
            match origin {
                Some(o) => Some(o@),
                None => None,
            },
            tenant@,
        ),
{
    let o: &str = match origin {
        Some(o) => o,
        None => {
            return name.to_string();
        },
    };
    if !every(chars_of(o).as_slice(), &Class::Except('/')) {
        return name.to_string();
    }
    let chars = chars_of(name);
    let dir_text = cat2("tenants/", o);
    let dir = chars_of(dir_text.as_str());
    let inside = chars_of(cat2(dir_text.as_str(), "/").as_str());
    if same_chars(chars.as_slice(), dir.as_slice()) || begins(chars.as_slice(), inside.as_slice()) {
        proof {
            reveal_strlit("/");
        }
        let rest = slice_subrange(chars.as_slice(), dir.len(), chars.len());
        assert(rest@ =~= name@.skip(dir@.len() as int));
        cat3("tenants/", tenant, text_of(rest).as_str())
    } else {
        name.to_string()
    }
}

/// The first component of a name.
pub open spec fn top(name: Seq<char>) -> Seq<char> {
    name.take(text::lead(name, Class::Except('/')))
}

/// Every name lies under one shared top-level directory.
pub open spec fn is_shared(names: Seq<Seq<char>>) -> bool {
    names.len() > 0 && forall|i: int|
        0 <= i < names.len() ==> (#[trigger] names[i]).contains('/') && top(names[i]) == top(
            names[0],
        )
}

/// The shared top-level directory of the names, with its slash; nothing
/// where they share none.
pub open spec fn shared_top(names: Seq<Seq<char>>) -> Seq<char> {
    if is_shared(names) {
        top(names[0]) + "/"@
    } else {
        Seq::empty()
    }
}

/// A name without a leading directory.
pub open spec fn stripped(name: Seq<char>, strip: Seq<char>) -> Seq<char> {
    if text::starts_with(name, strip) {
        name.skip(strip.len() as int)
    } else {
        name
    }
}

fn top_of(name: &str) -> (r: Option<String>)
    ensures
        match r {
            Some(t) => name@.contains('/') && t@ == top(name@),
            None => !name@.contains('/'),
        },
{
    let chars = chars_of(name);
    let n = lead_of(chars.as_slice(), &Class::Except('/'));
    proof {
        text::lemma_lead(name@, Class::Except('/'));
    }
    if n < chars.len() {
        assert(name@[n as int] == '/');
        let part = slice_subrange(chars.as_slice(), 0, n);
        assert(part@ =~= top(name@));
        Some(text_of(part))
    } else {
        assert forall|i: int| 0 <= i < name@.len() implies name@[i] != '/' by {
            assert(Class::Except('/').has(name@[i]));
        }
        None
    }
}

/// The shared top-level directory of an archive's members (the layout of a
/// bundle), with its slash.
pub fn bundle_top(members: &Vec<Member>) -> (r: String)
    ensures
        r@ == shared_top(backup::names_of(members@)),
{
    let ghost names = backup::names_of(members@);
    if members.len() == 0 {
        return String::new();
    }
    assert(names[0] == members@[0].name@);
    let first: String = match top_of(members[0].name.as_str()) {
        Some(t) => t,
        None => {
            assert(!names[0].contains('/'));
            return String::new();
        },
    };
    let mut i: usize = 1;
    while i < members.len()
        invariant
            1 <= i <= members.len(),
            names == backup::names_of(members@),
            first@ == top(names[0]),
            names[0].contains('/'),
            forall|j: int|
                0 <= j < i ==> (#[trigger] names[j]).contains('/') && top(names[j]) == top(names[0]),
        decreases members.len() - i,
    {
        assert(names[i as int] == members@[i as int].name@);
        match top_of(members[i].name.as_str()) {
            Some(t) => {
                if !text::same_text(t.as_str(), first.as_str()) {
                    assert(top(names[i as int]) != top(names[0]));
                    return String::new();
                }
            },
            None => {
                assert(!names[i as int].contains('/'));
                return String::new();
            },
        }
        i += 1;
    }
    cat2(first.as_str(), "/")
}

/// Where a member of an archive lands below the tenant.
pub open spec fn landing(
    name: Seq<char>,
    strip: Seq<char>,
    origin: Option<Seq<char>>,
    tenant: Seq<char>,
) -> Seq<char> {
    restored_name(stripped(name, strip), origin, tenant)
}

// ---------------------------------------------------------------------------
// The restore.
// ---------------------------------------------------------------------------

/// The directory of a tenant.
pub open spec fn tenant_dir(root: Seq<char>, tenant: Seq<char>) -> Seq<char> {
    path::below(path::below(root, "tenants"@), tenant)
}

/// The directory of a tenant.
pub fn tenant_path(root: &str, tenant: &str) -> (r: String)
    ensures
        r@ == tenant_dir(root@, tenant@),
{
    join(join(root, "tenants").as_str(), tenant)
}

/// What prepares the tenant's directory: one that exists is renamed aside,
/// never deleted.
pub open spec fn preparation(target: Seq<char>, exists: bool, epoch: nat) -> Seq<StepView> {
    (if exists {
        seq![
            StepView::Rename {
                from: target,
                to: target + ".pre-restore."@ + calendar::stamp(epoch),
                fault: FaultView::Die("cannot rename "@ + target + " aside"@),
            },
        ]
    } else {
        seq![]
    }) + seq![
        StepView::MakeDir { path: target, fault: FaultView::Die("cannot create "@ + target) },
    ]
}

/// The beginning of `restore <archive> <name> [--force]`: a tenant that exists
/// is replaced only by force.
pub fn cmd_restore(
    verified: &Verified,
    root: &str,
    tenant: &str,
    exists: bool,
    force: bool,
    epoch: u64,
) -> (r: Result<Plan, String>)
    ensures
        match r {
            Ok(plan) => (exists ==> force) && plan@ == preparation(
                tenant_dir(root@, tenant@),
                exists,
                epoch as nat,
            ),
            Err(m) => exists && !force && m@ == "tenant '"@ + tenant@
                + "' already exists — pass --force to replace it (the existing directory is renamed aside, never deleted)"@,
        },
{
    if exists && !force {
        return Err(
            cat3(
                "tenant '",
                tenant,
                "' already exists — pass --force to replace it (the existing directory is renamed aside, never deleted)",
            ),
        );
    }
    let target = tenant_path(root, tenant);
    let mut plan = Plan::new();
    if exists {
        plan.then_do(
            Step::Rename {
                from: target.clone(),
                to: cat3(target.as_str(), ".pre-restore.", utc_stamp(epoch).as_str()),
                fault: Fault::Die(cat3("cannot rename ", target.as_str(), " aside")),
            },
        );
    }
    let complaint = cat2("cannot create ", target.as_str());
    plan.then_do(Step::MakeDir { path: target, fault: Fault::Die(complaint) });
    Ok(plan)
}

/// The steps that place an archive's members.
pub open spec fn placements(
    members: Seq<Member>,
    target: Seq<char>,
    strip: Seq<char>,
    origin: Option<Seq<char>>,
    tenant: Seq<char>,
) -> Seq<StepView> {
    members.map_values(
        |m: Member|
            StepView::Place {
                path: path::below(target, landing(m.name@, strip, origin, tenant)),
                bytes: m.bytes@,
            },
    )
}

/// A tenant as prose.
pub open spec fn tenant_prose(tenant: Option<Seq<char>>) -> Seq<char> {
    match tenant {
        Some(t) => t,
        None => "None"@,
    }
}

/// Unpack the archive's members into the tenant directory. Bundle layout
/// (every member under one shared top-level directory) is stripped first,
/// then the backup rules apply.
pub fn unpack_into_tenant(
    verified: &Verified,
    target: &str,
    tenant: &str,
    members: Vec<Member>,
    quiet: bool,
) -> (r: Plan)
    ensures
        ({
            let origin = verify::recorded_tenant(verified.recorded().document());
            r@ == placements(
                members@,
                target@,
                shared_top(backup::names_of(members@)),
                origin,
                tenant@,
            ) + if quiet {
                seq![]
            } else {
                seq![
                    StepView::Say(
                        "restored into tenants/"@ + tenant@ + " (origin tenant: "@ + tenant_prose(
                            origin,
                        ) + ")"@,
                    ),
                ]
            }
        }),
{
    let origin = verified.record().tenant();
    let from: Option<&str> = match &origin {
        Some(o) => Some(o.as_str()),
        None => None,
    };
    let ghost o = verify::recorded_tenant(verified.recorded().document());
    let strip = bundle_top(&members);
    let ghost all = members@;
    let ghost steps = placements(all, target@, strip@, o, tenant@);
    let prefix = chars_of(strip.as_str());
    let mut plan = Plan::new();
    assert(plan@ =~= steps.take(0));
    for member in it: members
        invariant
            it.seq() == all,
            prefix@ == strip@,
            steps == placements(all, target@, strip@, o, tenant@),
            o == match from {
                Some(t) => Some(t@),
                None => None,
            },
            plan@ == steps.take(it.index() as int),
    {
        let ghost i = it.index() as int;
        assert(member == all[i]);
        let chars = chars_of(member.name.as_str());
        let bare: String = if begins(chars.as_slice(), prefix.as_slice()) {
            let rest = slice_subrange(chars.as_slice(), prefix.len(), chars.len());
            assert(rest@ =~= member.name@.skip(strip@.len() as int));
            text_of(rest)
        } else {
            member.name.clone()
        };
        let name = rewritten_member_name(bare.as_str(), from, tenant);
        plan.then_do(Step::Place { path: join(target, name.as_str()), bytes: member.bytes });
        assert(steps.take(i + 1) =~= steps.take(i).push(steps[i]));
    }
    assert(steps.take(all.len() as int) =~= steps);
    if !quiet {
        let from_text: &str = match from {
            Some(t) => t,
            None => "None",
        };
        plan.say(
            cat5("restored into tenants/", tenant, " (origin tenant: ", from_text, ")"),
        );
    }
    assert(quiet ==> plan@ =~= steps + Seq::<StepView>::empty());
    plan
}

/// Where the manifest of a tenant stands.
pub open spec fn manifest_of(target: Seq<char>) -> Seq<char> {
    path::below(target, "unidpp-operator.yaml"@)
}

/// What makes the restored manifest the tenant's own.
pub open spec fn manifest_step(manifest: Seq<char>, text: Seq<char>, tenant: Seq<char>) -> StepView {
    StepView::Write {
        path: manifest,
        text: rewrite::restored_manifest(text, tenant),
        fault: FaultView::Die("cannot write the restored manifest"@),
    }
}

/// The restored manifest becomes the tenant's own.
pub fn rewrite_manifest(manifest: &str, text: &str, tenant: &str, quiet: bool) -> (r: Plan)
    ensures
        r@ == seq![manifest_step(manifest@, text@, tenant@)] + if quiet {
            seq![]
        } else {
            seq![
                StepView::Say(
                    "restored manifest rewritten: journals under tenants/"@ + tenant@ + ", name "@
                        + tenant@,
                ),
            ]
        },
{
    let rewritten = rewrite_name(rewrite_state_files(text, tenant).as_str(), tenant);
    let mut plan = Plan::new();
    plan.then_do(
        Step::Write {
            path: manifest.to_string(),
            text: rewritten,
            fault: Fault::Die("cannot write the restored manifest".to_string()),
        },
    );
    if !quiet {
        plan.say(
            cat4(
                "restored manifest rewritten: journals under tenants/",
                tenant,
                ", name ",
                tenant,
            ),
        );
    }
    plan
}

/// The line that ends a restore.
pub fn review_line(tenant: &str) -> (r: String)
    ensures
        r@ == "review the binds in its manifest, then: ./tenants/up.sh "@ + tenant@,
{
    cat2("review the binds in its manifest, then: ./tenants/up.sh ", tenant)
}

// ---------------------------------------------------------------------------
// What a restore keeps.
// ---------------------------------------------------------------------------

/// No two members land on one name, unless the archive already holds a
/// member of the restored tenant.
pub proof fn law_restored_names_do_not_collide(
    a: Seq<char>,
    b: Seq<char>,
    origin: Option<Seq<char>>,
    tenant: Seq<char>,
)
    requires
        a != b,
        !lies_in(a, tenant),
        !lies_in(b, tenant),
    ensures
        restored_name(a, origin, tenant) != restored_name(b, origin, tenant),
{
    reveal_strlit("/");
    if let Some(o) = origin {
        lemma_landed(a, o, tenant);
        lemma_landed(b, o, tenant);
        let dir = "tenants/"@ + o;
        let new = "tenants/"@ + tenant;
        if is_of(a, o) && is_of(b, o) {
            let x = a.skip(dir.len() as int);
            let y = b.skip(dir.len() as int);
            assert(a =~= dir + x);
            assert(b =~= dir + y);
            if new + x == new + y {
                assert((new + x).skip(new.len() as int) =~= x);
                assert((new + y).skip(new.len() as int) =~= y);
            }
        }
    }
}

/// Every name lies in the directory that they share.
proof fn lemma_in_shared_top(names: Seq<Seq<char>>, i: int)
    requires
        0 <= i < names.len(),
    ensures
        text::starts_with(names[i], shared_top(names)),
        names[i] == shared_top(names) + stripped(names[i], shared_top(names)),
{
    reveal_strlit("/");
    let name = names[i];
    let strip = shared_top(names);
    if is_shared(names) {
        text::lemma_lead(name, Class::Except('/'));
        let n = text::lead(name, Class::Except('/'));
        assert(name.contains('/') && top(name) == top(names[0]));
        let k = choose|k: int| 0 <= k < name.len() && name[k] == '/';
        if n == name.len() {
            assert(Class::Except('/').has(name[k]));
        }
        assert(name[n] == '/');
        assert(name.take(n + 1) =~= top(name) + "/"@);
    } else {
        assert(name.take(0) =~= strip);
    }
    assert(name =~= name.take(strip.len() as int) + name.skip(strip.len() as int));
}

/// No member overwrites another one: two members with different names are
/// placed at different paths, in the layout of a backup and in that of a
/// bundle, unless the archive already holds a member of the restored tenant
/// or one with an absolute name.
pub proof fn law_members_land_apart(
    members: Seq<Member>,
    target: Seq<char>,
    origin: Option<Seq<char>>,
    tenant: Seq<char>,
    i: int,
    j: int,
)
    requires
        0 <= i < members.len(),
        0 <= j < members.len(),
        members[i].name@ != members[j].name@,
        ({
            let strip = shared_top(backup::names_of(members));
            let a = stripped(members[i].name@, strip);
            let b = stripped(members[j].name@, strip);
            &&& !lies_in(a, tenant)
            &&& !lies_in(b, tenant)
            &&& !text::starts_with(a, "/"@)
            &&& !text::starts_with(b, "/"@)
        }),
    ensures
        ({
            let steps = placements(
                members,
                target,
                shared_top(backup::names_of(members)),
                origin,
                tenant,
            );
            steps[i]->Place_path != steps[j]->Place_path && steps[i]->Place_bytes
                == members[i].bytes@
        }),
{
    let names = backup::names_of(members);
    let strip = shared_top(names);
    assert(names[i] == members[i].name@);
    assert(names[j] == members[j].name@);
    lemma_stripped_apart(names, i, j);
    let a = stripped(members[i].name@, strip);
    let b = stripped(members[j].name@, strip);
    law_restored_names_do_not_collide(a, b, origin, tenant);
    let x = restored_name(a, origin, tenant);
    let y = restored_name(b, origin, tenant);
    lemma_relative(a, origin, tenant);
    lemma_relative(b, origin, tenant);
    lemma_below_apart(target, x, y);
    let steps = placements(members, target, strip, origin, tenant);
    assert(steps[i] == StepView::Place { path: path::below(target, x), bytes: members[i].bytes@ });
    assert(steps[j] == StepView::Place { path: path::below(target, y), bytes: members[j].bytes@ });
}

proof fn lemma_below_apart(target: Seq<char>, x: Seq<char>, y: Seq<char>)
    requires
        x != y,
        !text::starts_with(x, "/"@),
        !text::starts_with(y, "/"@),
    ensures
        path::below(target, x) != path::below(target, y),
{
    let p = path::below(target, x);
    let q = path::below(target, y);
    if p == q {
        reveal_strlit("/");
        assert(p.skip(p.len() - x.len()) =~= x);
        assert(q.skip(q.len() - y.len()) =~= y);
    }
}

proof fn lemma_stripped_apart(names: Seq<Seq<char>>, i: int, j: int)
    requires
        0 <= i < names.len(),
        0 <= j < names.len(),
        names[i] != names[j],
    ensures
        stripped(names[i], shared_top(names)) != stripped(names[j], shared_top(names)),
{
    lemma_in_shared_top(names, i);
    lemma_in_shared_top(names, j);
}

/// A restore deletes nothing: a tenant that exists is renamed aside, and the
/// members are only placed.
pub proof fn law_restore_deletes_nothing(
    target: Seq<char>,
    exists: bool,
    epoch: nat,
    members: Seq<Member>,
    strip: Seq<char>,
    origin: Option<Seq<char>>,
    tenant: Seq<char>,
)
    ensures
        forall|k: int|
            0 <= k < preparation(target, exists, epoch).len() ==> !plan::removes(
                #[trigger] preparation(target, exists, epoch)[k],
            ),
        forall|k: int|
            0 <= k < placements(members, target, strip, origin, tenant).len() ==> (
            #[trigger] placements(members, target, strip, origin, tenant)[k]) is Place,
        exists ==> preparation(target, exists, epoch)[0] == (StepView::Rename {
            from: target,
            to: target + ".pre-restore."@ + calendar::stamp(epoch),
            fault: FaultView::Die("cannot rename "@ + target + " aside"@),
        }),
{
}

/// A relative name lands at a relative one.
pub proof fn lemma_relative(name: Seq<char>, origin: Option<Seq<char>>, tenant: Seq<char>)
    requires
        !text::starts_with(name, "/"@),
    ensures
        !text::starts_with(restored_name(name, origin, tenant), "/"@),
{
    reveal_strlit("/");
    reveal_strlit("tenants/");
    let out = restored_name(name, origin, tenant);
    if out != name && text::starts_with(out, "/"@) {
        assert(out[0] == 't');
        assert(out.take(1)[0] == '/');
    }
}

/// A member of the origin becomes one of the restored tenant.
proof fn lemma_landed(name: Seq<char>, origin: Seq<char>, tenant: Seq<char>)
    ensures
        is_of(name, origin) ==> lies_in(restored_name(name, Some(origin), tenant), tenant)
            && text::starts_with(name, "tenants/"@ + origin),
{
    reveal_strlit("/");
    if is_of(name, origin) {
        let dir = "tenants/"@ + origin;
        let new = "tenants/"@ + tenant;
        let rest = name.skip(dir.len() as int);
        let out = restored_name(name, Some(origin), tenant);
        assert(out == new + rest);
        if name == dir {
            assert(rest =~= Seq::<char>::empty());
            assert(out =~= new);
            assert(name.take(dir.len() as int) =~= dir);
        } else {
            let inside = dir + "/"@;
            assert(name.take(inside.len() as int) == inside);
            assert(name.take(dir.len() as int) =~= inside.take(dir.len() as int));
            assert(inside.take(dir.len() as int) =~= dir);
            assert(rest[0] == name[dir.len() as int]);
            assert(name[dir.len() as int] == inside[dir.len() as int]);
            assert(out.take((new + "/"@).len() as int) =~= new + "/"@);
        }
    }
}

/// A bundle restores like a backup: the tenant's directory that every member
/// of it shares is stripped, and only that.
pub proof fn law_bundle_layout_is_stripped(names: Seq<Seq<char>>, tenant: Seq<char>, i: int)
    requires
        0 <= i < names.len(),
        text::all_in(tenant, Class::Except('/')),
        forall|j: int|
            0 <= j < names.len() ==> text::starts_with(#[trigger] names[j], tenant + "/"@),
    ensures
        shared_top(names) == tenant + "/"@,
        names[i] == tenant + "/"@ + stripped(names[i], shared_top(names)),
{
    reveal_strlit("/");
    let dir = tenant + "/"@;
    assert forall|j: int| 0 <= j < names.len() implies (#[trigger] names[j]).contains('/') && top(
        names[j],
    ) == tenant by {
        let name = names[j];
        let n = tenant.len() as int;
        assert(text::starts_with(name, dir));
        assert(name.take(dir.len() as int) == dir);
        assert(name[n] == dir[n]);
        assert forall|k: int| 0 <= k < n implies Class::Except('/').has(#[trigger] name[k]) by {
            assert(name[k] == name.take(dir.len() as int)[k]);
            assert(dir[k] == tenant[k]);
        }
        text::lemma_lead_is(name, Class::Except('/'), n);
        assert(name.take(n) =~= tenant) by {
            assert forall|k: int| 0 <= k < n implies name[k] == tenant[k] by {
                assert(name[k] == name.take(dir.len() as int)[k]);
            }
        }
    }
    assert(top(names[0]) == tenant);
    assert(is_shared(names));
    assert(text::starts_with(names[i], dir));
    assert(names[i] =~= names[i].take(dir.len() as int) + names[i].skip(dir.len() as int));
}

} // verus!
