//! Disaster recovery: the deployment back at its ORIGINAL shape — the root
//! manifest, the root journals, the seed: the same deployment, standing up
//! again. The current live state is renamed aside, never deleted, and every
//! archive member returns to its original path with no rewriting of tenants
//! or manifests.

use vstd::prelude::*;
use vstd::string::*;

use crate::archive::Member;
use crate::backup;
use crate::backup::contains_name;
use crate::calendar;
use crate::calendar::utc_stamp;
use crate::decimal;
use crate::decimal::{decimal_of, parsed_number};
use crate::drill;
use crate::listing;
use crate::listing::TreeView;
use crate::order;
use crate::order::not_after_text;
use crate::path;
use crate::path::join;
use crate::plan;
use crate::plan::{Fault, FaultView, Plan, Step, StepView};
use crate::restore;
use crate::text;
use crate::text::{cat3, cat4, cat5, chars_of, contains_text, ends, text_of, trimmed, Class};
use crate::verify::Verified;

verus! {

/// The process that a pid file's text names.
pub open spec fn pid_of(text: Seq<char>) -> Option<nat> {
    decimal::parse_number(text::trim(text), u32::MAX as nat)
}

/// The process that a pid file's text names.
pub fn pid_in(text: &str) -> (r: Option<u32>)
    ensures
        match r {
            Some(pid) => pid_of(text@) == Some(pid as nat),
            None => pid_of(text@) is None,
        },
{
    let chars = chars_of(text);
    match parsed_number(trimmed(chars.as_slice()), u32::MAX as u64) {
        Some(pid) => Some(pid as u32),
        None => None,
    }
}

/// A file in the run directory: its text, and whether the process that it
/// names is alive.
pub struct RunFile {
    pub name: String,
    pub text: String,
    pub alive: bool,
}

/// The file is a pid file of a process that is alive.
pub open spec fn is_live(file: RunFile) -> bool {
    text::ends_with(file.name@, ".pid"@) && pid_of(file.text@) is Some && file.alive
}

/// At `i` stands the first pid file, by name, of a process that is alive.
pub open spec fn is_first_live(files: Seq<RunFile>, i: int) -> bool {
    &&& 0 <= i < files.len()
    &&& is_live(files[i])
    &&& forall|j: int|
        0 <= j < files.len() && is_live(#[trigger] files[j]) ==> order::le(
            files[i].name@,
            files[j].name@,
        )
}

/// What is said of a service that is still running.
pub open spec fn running_text(file: RunFile) -> Seq<char> {
    "a pilot service is still running (pid "@ + text::trim(file.text@) + ", run/"@ + file.name@
        + ") — stop first: ./stack.sh stop"@
}

/// The name was set aside by a recovery.
pub open spec fn is_leftover(name: Seq<char>) -> bool {
    text::holds_text(name, ".pre-recover."@)
}

/// The name is the first of those that a recovery left behind.
pub open spec fn is_first_leftover(names: Seq<Seq<char>>, name: Seq<char>) -> bool {
    &&& names.contains(name)
    &&& is_leftover(name)
    &&& forall|i: int|
        0 <= i < names.len() && is_leftover(#[trigger] names[i]) ==> order::le(name, names[i])
}

/// What is said of what a recovery left behind.
pub open spec fn leftover_text(name: Seq<char>) -> Seq<char> {
    "a pre-recover rename-aside already exists ("@ + name
        + ") — a prior recovery may be interrupted; inspect it, move it, or pass --force"@
}

fn first_live(files: &Vec<RunFile>) -> (r: Option<usize>)
    ensures
        match r {
            Some(i) => is_first_live(files@, i as int),
            None => forall|i: int| 0 <= i < files@.len() ==> !is_live(#[trigger] files@[i]),
        },
{
    let suffix = chars_of(".pid");
    let mut best: Option<usize> = None;
    let mut i: usize = 0;
    proof {
        order::lemma_dictionary_is_total();
    }
    while i < files.len()
        invariant
            i <= files.len(),
            suffix@ == ".pid"@,
            vstd::relations::total_ordering(order::dictionary()),
            match best {
                Some(b) => {
                    &&& b < i
                    &&& is_live(files@[b as int])
                    &&& forall|j: int|
                        0 <= j < i && is_live(#[trigger] files@[j]) ==> order::le(
                            files@[b as int].name@,
                            files@[j].name@,
                        )
                },
                None => forall|j: int| 0 <= j < i ==> !is_live(#[trigger] files@[j]),
            },
        decreases files.len() - i,
    {
        let ghost d = order::dictionary();
        let ghost me = files@[i as int].name@;
        assert(d(me, me));
        let file = &files[i];
        if ends(chars_of(file.name.as_str()).as_slice(), suffix.as_slice()) && pid_in(
            file.text.as_str(),
        ).is_some() && file.alive {
            best = match best {
                Some(b) => {
                    let ghost other = files@[b as int].name@;
                    assert(d(me, other) || d(other, me));
                    if not_after_text(files[b].name.as_str(), file.name.as_str()) {
                        Some(b)
                    } else {
                        proof {
                            assert forall|j: int|
                                0 <= j < i + 1 && is_live(#[trigger] files@[j]) implies order::le(
                                me,
                                files@[j].name@,
                            ) by {
                                if j < i {
                                    assert(d(other, files@[j].name@));
                                    assert(d(me, other));
                                }
                            }
                        }
                        Some(i)
                    }
                },
                None => Some(i),
            };
        }
        i += 1;
    }
    best
}

fn first_leftover(names: &Vec<String>) -> (r: Option<usize>)
    ensures
        match r {
            Some(i) => i < names@.len() && is_first_leftover(
                text::views(names@),
                names@[i as int]@,
            ),
            None => forall|i: int|
                0 <= i < names@.len() ==> !is_leftover(#[trigger] text::views(names@)[i]),
        },
{
    let ghost all = text::views(names@);
    let mark = chars_of(".pre-recover.");
    let mut best: Option<usize> = None;
    let mut i: usize = 0;
    proof {
        order::lemma_dictionary_is_total();
    }
    while i < names.len()
        invariant
            i <= names.len(),
            all == text::views(names@),
            mark@ == ".pre-recover."@,
            vstd::relations::total_ordering(order::dictionary()),
            match best {
                Some(b) => {
                    &&& b < i
                    &&& is_leftover(all[b as int])
                    &&& forall|j: int|
                        0 <= j < i && is_leftover(#[trigger] all[j]) ==> order::le(
                            all[b as int],
                            all[j],
                        )
                },
                None => forall|j: int| 0 <= j < i ==> !is_leftover(#[trigger] all[j]),
            },
        decreases names.len() - i,
    {
        let ghost d = order::dictionary();
        let ghost me = all[i as int];
        assert(me == names@[i as int]@);
        assert(d(me, me));
        if contains_text(chars_of(names[i].as_str()).as_slice(), mark.as_slice()) {
            best = match best {
                Some(b) => {
                    let ghost other = all[b as int];
                    assert(other == names@[b as int]@);
                    assert(d(me, other) || d(other, me));
                    if not_after_text(names[b].as_str(), names[i].as_str()) {
                        Some(b)
                    } else {
                        proof {
                            assert forall|j: int|
                                0 <= j < i + 1 && is_leftover(#[trigger] all[j]) implies order::le(
                                me,
                                all[j],
                            ) by {
                                if j < i {
                                    assert(d(other, all[j]));
                                    assert(d(me, other));
                                }
                            }
                        }
                        Some(i)
                    }
                },
                None => Some(i),
            };
        }
        i += 1;
    }
    if let Some(b) = best {
        assert(all[b as int] == names@[b as int]@);
        assert(all.contains(all[b as int]));
    }
    best
}

/// Nothing stands against a recovery: no service is up, and no earlier
/// recovery has left anything behind, unless that is overridden by force.
pub open spec fn is_clear(files: Seq<RunFile>, names: Seq<Seq<char>>, force: bool) -> bool {
    &&& forall|i: int| 0 <= i < files.len() ==> !is_live(#[trigger] files[i])
    &&& force || forall|i: int| 0 <= i < names.len() ==> !is_leftover(#[trigger] names[i])
}

/// A deployment that nothing stands against recovering.
pub struct Clearance {
    root: String,
    files: Ghost<Seq<RunFile>>,
    names: Ghost<Seq<Seq<char>>>,
    force: bool,
}

impl Clearance {
    /// The root of the deployment.
    pub closed spec fn root(self) -> Seq<char> {
        self.root@
    }

    /// The files of its `run` directory.
    pub closed spec fn files(self) -> Seq<RunFile> {
        self.files@
    }

    /// The names at its root.
    pub closed spec fn names(self) -> Seq<Seq<char>> {
        self.names@
    }

    /// What earlier recoveries left behind is overridden.
    pub closed spec fn is_forced(self) -> bool {
        self.force
    }

    #[verifier::type_invariant]
    spec fn inv(self) -> bool {
        is_clear(self.files@, self.names@, self.force)
    }
}

/// Whether a deployment may be recovered, or what stands against it: a
/// service that is up holds its journals open; and an interrupted recovery
/// has left evidence to investigate, not state to overwrite.
pub fn clear_to_recover(
    root: &str,
    files: &Vec<RunFile>,
    names: &Vec<String>,
    force: bool,
) -> (r: Result<Clearance, String>)
    ensures
        match r {
            Ok(c) => {
                &&& is_clear(files@, text::views(names@), force)
                &&& c.root() == root@
                &&& c.files() == files@
                &&& c.names() == text::views(names@)
                &&& c.is_forced() == force
            },
            Err(m) => {
                ||| exists|i: int| #[trigger]
                    is_first_live(files@, i) && m@ == running_text(files@[i])
                ||| (forall|i: int| 0 <= i < files@.len() ==> !is_live(#[trigger] files@[i]))
                    && !force && exists|name: Seq<char>| #[trigger]
                    is_first_leftover(text::views(names@), name) && m@ == leftover_text(name)
            },
        },
        r is Ok <==> is_clear(files@, text::views(names@), force),
{
    if let Some(i) = first_live(files) {
        let file = &files[i];
        let chars = chars_of(file.text.as_str());
        let pid = text_of(trimmed(chars.as_slice()));
        assert(is_first_live(files@, i as int));
        return Err(
            cat5(
                "a pilot service is still running (pid ",
                pid.as_str(),
                ", run/",
                file.name.as_str(),
                ") — stop first: ./stack.sh stop",
            ),
        );
    }
    if !force {
        if let Some(i) = first_leftover(names) {
            assert(is_first_leftover(text::views(names@), names@[i as int]@));
            assert(is_leftover(text::views(names@)[i as int]));
            return Err(
                cat3(
                    "a pre-recover rename-aside already exists (",
                    names[i].as_str(),
                    ") — a prior recovery may be interrupted; inspect it, move it, or pass --force",
                ),
            );
        }
    }
    Ok(
        Clearance {
            root: root.to_string(),
            files: Ghost(files@),
            names: Ghost(text::views(names@)),
            force,
        },
    )
}

/// What of a deployment is live state.
pub open spec fn live_state() -> Seq<Seq<char>> {
    seq![
        "unidpp-operator.yaml"@,
        "registry-journal.jsonl"@,
        "jp-registry-journal.jsonl"@,
        "run"@,
        "tenants"@,
        "seed"@,
    ]
}

/// The steps that set one thing aside, if it is there.
pub open spec fn aside_one(
    root: Seq<char>,
    target: Seq<char>,
    present: Seq<Seq<char>>,
    epoch: nat,
) -> Seq<StepView> {
    let aside = target + ".pre-recover."@ + calendar::stamp(epoch);
    if present.contains(target) {
        seq![
            StepView::Rename {
                from: path::below(root, target),
                to: path::below(root, aside),
                fault: FaultView::Die("cannot set "@ + target + " aside"@),
            },
            StepView::Say("recover: set aside "@ + target + " -> "@ + aside),
        ]
    } else {
        seq![]
    }
}

/// The steps that set the live state aside.
pub open spec fn aside_steps(
    root: Seq<char>,
    targets: Seq<Seq<char>>,
    present: Seq<Seq<char>>,
    epoch: nat,
) -> Seq<StepView>
    decreases targets.len(),
{
    if targets.len() == 0 {
        Seq::empty()
    } else {
        aside_steps(root, targets.drop_last(), present, epoch) + aside_one(
            root,
            targets.last(),
            present,
            epoch,
        )
    }
}

/// The names of the live state.
pub fn live_names() -> (r: Vec<String>)
    ensures
        text::views(r@) == live_state(),
        forall|name: Seq<char>| #[trigger]
            text::views(r@).contains(name) <==> (name == "unidpp-operator.yaml"@ || name
                == "registry-journal.jsonl"@ || name == "jp-registry-journal.jsonl"@ || name
                == "run"@ || name == "tenants"@ || name == "seed"@),
{
    let r = vec![
        "unidpp-operator.yaml".to_string(),
        "registry-journal.jsonl".to_string(),
        "jp-registry-journal.jsonl".to_string(),
        "run".to_string(),
        "tenants".to_string(),
        "seed".to_string(),
    ];
    assert(text::views(r@) =~= live_state());
    proof {
        assert forall|name: Seq<char>| #[trigger] text::views(r@).contains(name) <==> (name
            == "unidpp-operator.yaml"@ || name == "registry-journal.jsonl"@ || name
            == "jp-registry-journal.jsonl"@ || name == "run"@ || name == "tenants"@ || name
            == "seed"@) by {
            law_live_state_is_named(name);
        }
    }
    r
}

/// The steps of a recovery: the live state aside, then every member at its
/// original path.
pub open spec fn recover_steps(
    root: Seq<char>,
    present: Seq<Seq<char>>,
    members: Seq<Member>,
    epoch: nat,
) -> Seq<StepView> {
    aside_steps(root, live_state(), present, epoch) + drill::original_shape(members, root) + seq![
        StepView::Say(
            "recover: unpacked "@ + decimal::decimal(members.len())
                + " member(s) at original paths"@,
        ),
        StepView::Say("recover: done. Bring it back:"@),
        StepView::Say("  ./stack.sh start && ./stack.sh status"@),
        StepView::Say("  ./seed-pilot.sh        # idempotent (re-runs reuse journaled state)"@),
        StepView::Say(
            "the rename-aside state survives under *.pre-recover."@ + calendar::stamp(epoch)
                + " — remove nothing until the recovery is proven."@,
        ),
    ]
}

/// `recover <archive> [--force]`: what the recovery of a deployment that
/// nothing stands against does, given which of the live state is there.
pub fn cmd_recover(
    verified: &Verified,
    clear: &Clearance,
    present: &Vec<String>,
    members: Vec<Member>,
    epoch: u64,
) -> (r: Plan)
    ensures
        is_clear(clear.files(), clear.names(), clear.is_forced()),
        r@ == recover_steps(clear.root(), text::views(present@), members@, epoch as nat),
{
    proof {
        use_type_invariant(clear);
    }
    let root = clear.root.as_str();
    let ghost here = text::views(present@);
    let ghost all = members@;
    let stamp = utc_stamp(epoch);
    let targets = live_names();
    let ghost ts = live_state();
    let mut plan = Plan::new();
    let mut i: usize = 0;
    assert(ts.take(0) =~= Seq::<Seq<char>>::empty());
    assert(plan@ =~= aside_steps(root@, ts.take(0), here, epoch as nat));
    while i < targets.len()
        invariant
            i <= targets.len(),
            text::views(targets@) == ts,
            here == text::views(present@),
            stamp@ == calendar::stamp(epoch as nat),
            plan@ == aside_steps(root@, ts.take(i as int), here, epoch as nat),
        decreases targets.len() - i,
    {
        let target = targets[i].as_str();
        let ghost before = plan@;
        assert(ts[i as int] == target@);
        assert(ts.take(i + 1).drop_last() =~= ts.take(i as int));
        assert(ts.take(i + 1).last() == target@);
        if contains_name(present, target) {
            let aside = cat3(target, ".pre-recover.", stamp.as_str());
            plan.then_do(
                Step::Rename {
                    from: join(root, target),
                    to: join(root, aside.as_str()),
                    fault: Fault::Die(cat3("cannot set ", target, " aside")),
                },
            );
            plan.say(cat4("recover: set aside ", target, " -> ", aside.as_str()));
        }
        assert(plan@ =~= before + aside_one(root@, target@, here, epoch as nat));
        i += 1;
    }
    assert(ts.take(i as int) =~= ts);
    let ghost head = plan@;
    let total = members.len();
    let ghost steps = drill::original_shape(all, root@);
    assert(plan@ =~= head + steps.take(0));
    for member in it: members
        invariant
            it.seq() == all,
            steps == drill::original_shape(all, root@),
            plan@ == head + steps.take(it.index() as int),
    {
        let ghost k = it.index() as int;
        assert(member == all[k]);
        plan.then_do(
            Step::Place { path: join(root, member.name.as_str()), bytes: member.bytes },
        );
        assert(steps.take(k + 1) =~= steps.take(k).push(steps[k]));
    }
    assert(steps.take(all.len() as int) =~= steps);
    plan.say(
        cat3(
            "recover: unpacked ",
            decimal_of(total as u64).as_str(),
            " member(s) at original paths",
        ),
    );
    plan.say_text("recover: done. Bring it back:");
    plan.say_text("  ./stack.sh start && ./stack.sh status");
    plan.say_text("  ./seed-pilot.sh        # idempotent (re-runs reuse journaled state)");
    plan.say(
        cat3(
            "the rename-aside state survives under *.pre-recover.",
            stamp.as_str(),
            " — remove nothing until the recovery is proven.",
        ),
    );
    assert(plan@ =~= recover_steps(root@, here, all, epoch as nat));
    plan
}

proof fn lemma_aside(
    root: Seq<char>,
    targets: Seq<Seq<char>>,
    present: Seq<Seq<char>>,
    epoch: nat,
)
    ensures
        forall|i: int|
            0 <= i < aside_steps(root, targets, present, epoch).len() ==> {
                let step = #[trigger] aside_steps(root, targets, present, epoch)[i];
                step is Rename || step is Say
            },
        forall|j: int|
            0 <= j < targets.len() && present.contains(#[trigger] targets[j]) ==> exists|i: int|
                0 <= i < aside_steps(root, targets, present, epoch).len() && (#[trigger] aside_steps(
                    root,
                    targets,
                    present,
                    epoch,
                )[i]) is Rename && aside_steps(root, targets, present, epoch)[i]->Rename_from
                    == path::below(root, targets[j]),
    decreases targets.len(),
{
    if targets.len() > 0 {
        let rest = targets.drop_last();
        lemma_aside(root, rest, present, epoch);
        let a = aside_steps(root, rest, present, epoch);
        let b = aside_one(root, targets.last(), present, epoch);
        let all = aside_steps(root, targets, present, epoch);
        assert forall|i: int| 0 <= i < all.len() implies {
            let step = #[trigger] all[i];
            step is Rename || step is Say
        } by {
            if i < a.len() {
                assert(all[i] == a[i]);
            } else {
                assert(all[i] == b[i - a.len()]);
            }
        }
        assert forall|j: int|
            0 <= j < targets.len() && present.contains(#[trigger] targets[j]) implies exists|i: int|
            0 <= i < all.len() && (#[trigger] all[i]) is Rename && all[i]->Rename_from
                == path::below(root, targets[j]) by {
            if j < rest.len() {
                assert(rest[j] == targets[j]);
                let i = choose|i: int|
                    0 <= i < a.len() && (#[trigger] a[i]) is Rename && a[i]->Rename_from
                        == path::below(root, rest[j]);
                assert(all[i] == a[i]);
            } else {
                assert(all[a.len() as int] == b[0]);
            }
        }
    }
}

/// A recovery deletes nothing: all live state that is there is renamed aside
/// before the first member is placed.
pub proof fn law_recovery_deletes_nothing(
    root: Seq<char>,
    present: Seq<Seq<char>>,
    members: Seq<Member>,
    epoch: nat,
)
    ensures
        forall|i: int|
            0 <= i < recover_steps(root, present, members, epoch).len() ==> !plan::removes(
                #[trigger] recover_steps(root, present, members, epoch)[i],
            ),
        forall|j: int, k: int|
            0 <= j < live_state().len() && present.contains(#[trigger] live_state()[j]) && 0 <= k
                < recover_steps(root, present, members, epoch).len() && (#[trigger] recover_steps(
                root,
                present,
                members,
                epoch,
            )[k]) is Place ==> exists|i: int|
                0 <= i < k && (#[trigger] recover_steps(root, present, members, epoch)[i]) is Rename
                    && recover_steps(root, present, members, epoch)[i]->Rename_from == path::below(
                    root,
                    live_state()[j],
                ),
{
    let steps = recover_steps(root, present, members, epoch);
    let a = aside_steps(root, live_state(), present, epoch);
    let b = drill::original_shape(members, root);
    lemma_aside(root, live_state(), present, epoch);
    assert forall|i: int| 0 <= i < steps.len() implies !plan::removes(#[trigger] steps[i]) by {
        if i < a.len() {
            assert(steps[i] == a[i]);
        } else if i < a.len() + b.len() {
            assert(steps[i] == b[i - a.len()]);
        }
    }
    assert forall|j: int, k: int|
        0 <= j < live_state().len() && present.contains(#[trigger] live_state()[j]) && 0 <= k
            < steps.len() && (#[trigger] steps[k]) is Place implies exists|i: int|
        0 <= i < k && (#[trigger] steps[i]) is Rename && steps[i]->Rename_from == path::below(
            root,
            live_state()[j],
        ) by {
        let i = choose|i: int|
            0 <= i < a.len() && (#[trigger] a[i]) is Rename && a[i]->Rename_from == path::below(
                root,
                live_state()[j],
            );
        assert(steps[i] == a[i]);
        if k < a.len() {
            assert(steps[k] == a[k]);
        }
    }
}

/// What of a deployment is live state, by name: the manifest, both journals at
/// the root, and the directories of the services, of the tenants and of the
/// seed; nothing else, and so no backups.
pub proof fn law_live_state_is_named(name: Seq<char>)
    ensures
        live_state().contains(name) <==> (name == "unidpp-operator.yaml"@ || name
            == "registry-journal.jsonl"@ || name == "jp-registry-journal.jsonl"@ || name == "run"@
            || name == "tenants"@ || name == "seed"@),
{
    let all = live_state();
    assert(all[0] == "unidpp-operator.yaml"@);
    assert(all[1] == "registry-journal.jsonl"@);
    assert(all[2] == "jp-registry-journal.jsonl"@);
    assert(all[3] == "run"@);
    assert(all[4] == "tenants"@);
    assert(all[5] == "seed"@);
}

/// Whatever a backup can bring back is set aside first: the first component of
/// every name that a backup holds is live state.
pub proof fn law_what_comes_back_is_set_aside(
    files: Seq<Seq<char>>,
    run: Seq<TreeView>,
    tenants: Seq<TreeView>,
    seed: Seq<TreeView>,
    x: Seq<char>,
)
    requires
        backup::payload_of(files, run, tenants, seed).contains(x),
    ensures
        live_state().contains(restore::top(x)),
{
    backup::law_a_backup_holds_no_exhaust(files, run, tenants, seed, x);
    law_live_state_is_named(restore::top(x));
    reveal_strlit("unidpp-operator.yaml");
    reveal_strlit("registry-journal.jsonl");
    reveal_strlit("jp-registry-journal.jsonl");
    reveal_strlit("run");
    reveal_strlit("run/");
    reveal_strlit("tenants");
    reveal_strlit("tenants/");
    reveal_strlit("seed");
    reveal_strlit("seed/");
    if x == "unidpp-operator.yaml"@ || x == "registry-journal.jsonl"@ || x
        == "jp-registry-journal.jsonl"@ {
        text::lemma_lead_is(x, Class::Except('/'), x.len() as int);
        assert(restore::top(x) =~= x);
    } else if text::starts_with(x, "run/"@) {
        assert(x[3] == x.take(4)[3]);
        assert(x.take(3) =~= x.take(4).take(3));
        assert("run/"@.take(3) =~= "run"@);
        lemma_top(x, "run"@);
    } else if text::starts_with(x, "tenants/"@) {
        assert(x[7] == x.take(8)[7]);
        assert(x.take(7) =~= x.take(8).take(7));
        assert("tenants/"@.take(7) =~= "tenants"@);
        lemma_top(x, "tenants"@);
    } else {
        assert(exists|path: Seq<char>, name: Seq<char>| #[trigger]
            listing::leads_to(seed, path, name) && x == "seed/"@ + path) by {
            assert forall|path: Seq<char>| x == "run/"@ + path implies false by {
                assert(x.take("run/"@.len() as int) =~= "run/"@);
            }
            assert forall|path: Seq<char>| x == "tenants/"@ + path implies false by {
                assert(x.take("tenants/"@.len() as int) =~= "tenants/"@);
            }
        }
        assert(x.take("seed/"@.len() as int) =~= "seed/"@);
        assert(x[4] == x.take(5)[4]);
        assert(x.take(4) =~= x.take(5).take(4));
        assert("seed/"@.take(4) =~= "seed"@);
        lemma_top(x, "seed"@);
    }
}

/// The first component of a path below a directory.
pub proof fn lemma_top(x: Seq<char>, dir: Seq<char>)
    requires
        dir.len() < x.len(),
        x[dir.len() as int] == '/',
        x.take(dir.len() as int) == dir,
        forall|i: int| 0 <= i < dir.len() ==> #[trigger] dir[i] != '/',
    ensures
        restore::top(x) == dir,
{
    let n = dir.len() as int;
    assert forall|i: int| 0 <= i < n implies Class::Except('/').has(#[trigger] x[i]) by {
        assert(x[i] == x.take(n)[i]);
    }
    text::lemma_lead_is(x, Class::Except('/'), n);
}

/// A recovery leaves a trace: what it sets aside is recognized, so that the next
/// recovery is refused without force; and a service that runs holds any recovery
/// up, with force too.
pub proof fn law_recoveries_do_not_overlap(
    root: Seq<char>,
    target: Seq<char>,
    present: Seq<Seq<char>>,
    epoch: nat,
    files: Seq<RunFile>,
    names: Seq<Seq<char>>,
    force: bool,
    i: int,
)
    ensures
        present.contains(target) ==> {
            let steps = aside_one(root, target, present, epoch);
            exists|aside: Seq<char>|
                {
                    &&& steps[0] is Rename
                    &&& steps[0]->Rename_from == path::below(root, target)
                    &&& steps[0]->Rename_to == #[trigger] path::below(root, aside)
                    &&& text::starts_with(aside, target)
                    &&& names.contains(aside) ==> !is_clear(files, names, false)
                }
        },
        0 <= i < files.len() && text::ends_with(files[i].name@, ".pid"@) && pid_of(
            files[i].text@,
        ) is Some && files[i].alive ==> !is_clear(files, names, force),
{
    let aside = target + ".pre-recover."@ + calendar::stamp(epoch);
    let n = target.len() as int;
    let mark = ".pre-recover."@;
    assert(aside.subrange(n, n + mark.len()) =~= mark);
    assert(text::occurs_at(aside, mark, n));
    assert(aside.take(n) =~= target);
    if present.contains(target) {
        let steps = aside_one(root, target, present, epoch);
        assert(steps[0]->Rename_to == path::below(root, aside));
        if names.contains(aside) {
            let k = choose|k: int| 0 <= k < names.len() && names[k] == aside;
            assert(is_leftover(names[k]));
        }
    }
    if 0 <= i < files.len() && text::ends_with(files[i].name@, ".pid"@) && pid_of(
        files[i].text@,
    ) is Some && files[i].alive {
        assert(is_live(files[i]));
    }
}

} // verus!
