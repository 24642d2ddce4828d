//! What the command lines of the programs ask for.

use vstd::prelude::*;
use vstd::string::*;

use crate::schedule;
use crate::schedule::arg_at;
use crate::stack::TenantAction;
use crate::text;
use crate::text::same_text;

verus! {

/// What `unidpp-ops` says of itself.
pub const USAGE: &'static str = r#"unidpp-ops — deployment backup and restore (the durability contract).

  ./unidpp-ops backup  [name]        # snapshot the deployment (default:
                                     #  the tenant named by the root manifest)
  ./unidpp-ops restore <archive> <name> [--force]
  ./unidpp-ops verify <archive>      # checksums only
  ./unidpp-ops schedule [--install]  # the nightly backup cron line
                                     #  (--install merges it idempotently)
  ./unidpp-ops schedule --watch --install
                                     # the always-on watch: */10 the
                                     #  idempotent repair (stack start)
  ./unidpp-ops prune [--keep N] [--apply]
                                     # retention: LIST backups beyond the
                                     #  newest N (report-only unless --apply)
  ./unidpp-ops bundle <tenant> [--data-only] [--out dir]
                                     # the on-prem whitelabel artifact:
                                     #  manifest + declared-service
                                     #  binaries + runner + runbook,
                                     #  verified exactly like a backup
                                     #  (--data-only: the tenant-state
                                     #  artifact for a deployment that
                                     #  already has its engine)
  ./unidpp-ops drill [--keep]        # the restore rehearsal: backup ->
                                     #  restore into a drill tenant ->
                                     #  checksums + byte parity + manifest
                                     #  validation -> JSON drill report

What a backup is: the deployment AS DATA — the operator manifest,
every journal (registry root journal, run/*-journal, every tenant's
journals), and the seed assets — in a versioned tar.gz next to a
JSON sidecar carrying per-file sha256s, the UTC moment, and the log
tree head as the consistency point (journals are append-only; the
tree head at snapshot time is what a restore replays up to).
"#;

/// What `unidpp-stack` says of itself.
pub const STACK_USAGE: &'static str =
    "usage: unidpp-stack <up|down|status|seed-jp> | tenant <name> <up|down|status>";

/// What a command line of `unidpp-ops` asks for, as mathematics.
pub enum OpsView {
    Backup { named: Option<Seq<char>> },
    Restore { archive: Seq<char>, tenant: Seq<char>, force: bool },
    Verify { archive: Seq<char> },
    Schedule { args: Seq<Seq<char>> },
    Prune { args: Seq<Seq<char>> },
    Drill { arg: Option<Seq<char>> },
    Bundle { args: Seq<Seq<char>> },
    Rehearse,
    Recover { archive: Seq<char>, force: bool },
    Decommission { tenant: Seq<char> },
    Die(Seq<char>),
    Usage,
}

/// What a command line of `unidpp-ops` asks for.
pub enum OpsCommand {
    Backup { named: Option<String> },
    Restore { archive: String, tenant: String, force: bool },
    Verify { archive: String },
    Schedule { args: Vec<String> },
    Prune { args: Vec<String> },
    Drill { arg: Option<String> },
    Bundle { args: Vec<String> },
    Rehearse,
    Recover { archive: String, force: bool },
    Decommission { tenant: String },
    /// Nothing that can be done; end, and say so.
    Die(String),
    /// Nothing that is known; say how it is used.
    Usage,
}

/// A text that may be there, as mathematics.
pub open spec fn optional(t: Option<String>) -> Option<Seq<char>> {
    match t {
        Some(x) => Some(x@),
        None => None,
    }
}

impl View for OpsCommand {
    type V = OpsView;

    open spec fn view(&self) -> OpsView {
        match self {
            OpsCommand::Backup { named } => OpsView::Backup { named: optional(*named) },
            OpsCommand::Restore { archive, tenant, force } => OpsView::Restore {
                archive: archive@,
                tenant: tenant@,
                force: *force,
            },
            OpsCommand::Verify { archive } => OpsView::Verify { archive: archive@ },
            OpsCommand::Schedule { args } => OpsView::Schedule { args: text::views(args@) },
            OpsCommand::Prune { args } => OpsView::Prune { args: text::views(args@) },
            OpsCommand::Drill { arg } => OpsView::Drill { arg: optional(*arg) },
            OpsCommand::Bundle { args } => OpsView::Bundle { args: text::views(args@) },
            OpsCommand::Rehearse => OpsView::Rehearse,
            OpsCommand::Recover { archive, force } => OpsView::Recover {
                archive: archive@,
                force: *force,
            },
            OpsCommand::Decommission { tenant } => OpsView::Decommission { tenant: tenant@ },
            OpsCommand::Die(m) => OpsView::Die(m@),
            OpsCommand::Usage => OpsView::Usage,
        }
    }
}

/// Whether force is asked for by the argument at a position; an empty one
/// asks for nothing, and any other is refused.
pub open spec fn forced(args: Seq<Seq<char>>, i: int) -> Option<bool> {
    let word = schedule::arg(args, i);
    if word == ""@ {
        Some(false)
    } else if word == "--force"@ {
        Some(true)
    } else {
        None
    }
}

/// What `restore` asks for.
pub open spec fn restore_request(args: Seq<Seq<char>>) -> OpsView {
    match forced(args, 3) {
        Some(force) if args.len() >= 3 => OpsView::Restore {
            archive: args[1],
            tenant: args[2],
            force,
        },
        _ => OpsView::Die("usage: restore <archive> <name> [--force]"@),
    }
}

/// What `recover` asks for.
pub open spec fn recover_request(args: Seq<Seq<char>>) -> OpsView {
    match forced(args, 2) {
        Some(force) if args.len() >= 2 => OpsView::Recover { archive: args[1], force },
        _ => OpsView::Die("usage: recover <archive> [--force]"@),
    }
}

/// What a command line of `unidpp-ops` asks for.
pub open spec fn ops_request(args: Seq<Seq<char>>) -> OpsView {
    let word = schedule::arg(args, 0);
    let rest = args.skip(1);
    if word == "backup"@ {
        OpsView::Backup {
            named: if args.len() >= 2 && args[1] != ""@ {
                Some(args[1])
            } else {
                None
            },
        }
    } else if word == "restore"@ {
        restore_request(args)
    } else if word == "verify"@ {
        if args.len() >= 2 {
            OpsView::Verify { archive: args[1] }
        } else {
            OpsView::Die("usage: verify <archive>"@)
        }
    } else if word == "schedule"@ {
        OpsView::Schedule { args: rest }
    } else if word == "prune"@ {
        OpsView::Prune { args: rest }
    } else if word == "drill"@ {
        OpsView::Drill {
            arg: if args.len() >= 2 {
                Some(args[1])
            } else {
                None
            },
        }
    } else if word == "bundle"@ {
        if args.len() >= 2 {
            OpsView::Bundle { args: rest }
        } else {
            OpsView::Die("usage: bundle <tenant> [--data-only] [--out dir]"@)
        }
    } else if word == "rehearse-upgrade"@ {
        OpsView::Rehearse
    } else if word == "recover"@ {
        recover_request(args)
    } else if word == "decommission"@ {
        if args.len() >= 2 {
            OpsView::Decommission { tenant: args[1] }
        } else {
            OpsView::Die("usage: decommission <tenant>"@)
        }
    } else {
        OpsView::Usage
    }
}

fn rest_of(args: &Vec<String>) -> (r: Vec<String>)
    requires
        args@.len() > 0,
    ensures
        text::views(r@) == text::views(args@).skip(1),
{
    let mut r: Vec<String> = Vec::new();
    let mut i: usize = 1;
    while i < args.len()
        invariant
            1 <= i <= args.len(),
            r@.len() == i - 1,
            forall|k: int| 0 <= k < r@.len() ==> (#[trigger] r@[k])@ == args@[k + 1]@,
        decreases args.len() - i,
    {
        r.push(args[i].clone());
        i += 1;
    }
    assert(text::views(r@) =~= text::views(args@).skip(1));
    r
}

fn force_at(args: &Vec<String>, i: usize) -> (r: Option<bool>)
    ensures
        r == forced(text::views(args@), i as int),
{
    let word = arg_at(args, i);
    if same_text(word, "") {
        Some(false)
    } else if same_text(word, "--force") {
        Some(true)
    } else {
        None
    }
}

fn restore_command(args: &Vec<String>) -> (r: OpsCommand)
    ensures
        r@ == restore_request(text::views(args@)),
{
    if args.len() >= 3 {
        if let Some(force) = force_at(args, 3) {
            return OpsCommand::Restore {
                archive: args[1].clone(),
                tenant: args[2].clone(),
                force,
            };
        }
    }
    OpsCommand::Die("usage: restore <archive> <name> [--force]".to_string())
}

fn recover_command(args: &Vec<String>) -> (r: OpsCommand)
    ensures
        r@ == recover_request(text::views(args@)),
{
    if args.len() >= 2 {
        if let Some(force) = force_at(args, 2) {
            return OpsCommand::Recover { archive: args[1].clone(), force };
        }
    }
    OpsCommand::Die("usage: recover <archive> [--force]".to_string())
}

proof fn lemma_words_are_not_empty()
    ensures
        "backup"@ != ""@,
        "restore"@ != ""@,
        "verify"@ != ""@,
        "schedule"@ != ""@,
        "prune"@ != ""@,
        "drill"@ != ""@,
        "bundle"@ != ""@,
        "rehearse-upgrade"@ != ""@,
        "recover"@ != ""@,
        "decommission"@ != ""@,
{
    reveal_strlit("");
    reveal_strlit("backup");
    reveal_strlit("restore");
    reveal_strlit("verify");
    reveal_strlit("schedule");
    reveal_strlit("prune");
    reveal_strlit("drill");
    reveal_strlit("bundle");
    reveal_strlit("rehearse-upgrade");
    reveal_strlit("recover");
    reveal_strlit("decommission");
    assert(""@.len() == 0);
    assert("backup"@.len() > 0 && "restore"@.len() > 0 && "verify"@.len() > 0);
    assert("schedule"@.len() > 0 && "prune"@.len() > 0 && "drill"@.len() > 0);
    assert("bundle"@.len() > 0 && "rehearse-upgrade"@.len() > 0 && "recover"@.len() > 0);
    assert("decommission"@.len() > 0);
}

/// What a command line of `unidpp-ops` asks for.
pub fn ops_command(args: &Vec<String>) -> (r: OpsCommand)
    ensures
        r@ == ops_request(text::views(args@)),
{
    proof {
        lemma_words_are_not_empty();
    }
    let word = arg_at(args, 0);
    if same_text(word, "backup") {
        if args.len() >= 2 && !same_text(args[1].as_str(), "") {
            OpsCommand::Backup { named: Some(args[1].clone()) }
        } else {
            OpsCommand::Backup { named: None }
        }
    } else if same_text(word, "restore") {
        restore_command(args)
    } else if same_text(word, "verify") {
        if args.len() >= 2 {
            OpsCommand::Verify { archive: args[1].clone() }
        } else {
            OpsCommand::Die("usage: verify <archive>".to_string())
        }
    } else if same_text(word, "schedule") {
        OpsCommand::Schedule { args: rest_of(args) }
    } else if same_text(word, "prune") {
        OpsCommand::Prune { args: rest_of(args) }
    } else if same_text(word, "drill") {
        if args.len() >= 2 {
            OpsCommand::Drill { arg: Some(args[1].clone()) }
        } else {
            OpsCommand::Drill { arg: None }
        }
    } else if same_text(word, "bundle") {
        if args.len() >= 2 {
            OpsCommand::Bundle { args: rest_of(args) }
        } else {
            OpsCommand::Die("usage: bundle <tenant> [--data-only] [--out dir]".to_string())
        }
    } else if same_text(word, "rehearse-upgrade") {
        OpsCommand::Rehearse
    } else if same_text(word, "recover") {
        recover_command(args)
    } else if same_text(word, "decommission") {
        if args.len() >= 2 {
            OpsCommand::Decommission { tenant: args[1].clone() }
        } else {
            OpsCommand::Die("usage: decommission <tenant>".to_string())
        }
    } else {
        OpsCommand::Usage
    }
}

/// What a command line of `unidpp-stack` asks for, as mathematics.
pub enum StackView {
    Up,
    Down,
    Status,
    SeedJp,
    Tenant(Seq<char>, TenantAction),
    Die(Seq<char>),
}

/// What a command line of `unidpp-stack` asks for.
pub enum StackCommand {
    Up,
    Down,
    Status,
    SeedJp,
    Tenant(String, TenantAction),
    /// Nothing that is known; end, and say how it is used.
    Die(String),
}

impl View for StackCommand {
    type V = StackView;

    open spec fn view(&self) -> StackView {
        match self {
            StackCommand::Up => StackView::Up,
            StackCommand::Down => StackView::Down,
            StackCommand::Status => StackView::Status,
            StackCommand::SeedJp => StackView::SeedJp,
            StackCommand::Tenant(tenant, action) => StackView::Tenant(tenant@, *action),
            StackCommand::Die(m) => StackView::Die(m@),
        }
    }
}

/// What is to be done with a tenant, by the word for it; without one it is
/// brought up.
pub open spec fn tenant_request(word: Option<Seq<char>>) -> Option<TenantAction> {
    match word {
        None => Some(TenantAction::Up),
        Some(w) => if w == "stop"@ || w == "down"@ {
            Some(TenantAction::Stop)
        } else if w == "status"@ {
            Some(TenantAction::Status)
        } else if w == "up"@ || w == "start"@ {
            Some(TenantAction::Up)
        } else {
            None
        },
    }
}

/// What a command line of `unidpp-stack` asks for.
pub open spec fn stack_request(args: Seq<Seq<char>>) -> StackView {
    if args.len() == 0 {
        StackView::Die(STACK_USAGE@)
    } else if args[0] == "up"@ || args[0] == "start"@ {
        StackView::Up
    } else if args[0] == "down"@ || args[0] == "stop"@ {
        StackView::Down
    } else if args[0] == "status"@ {
        StackView::Status
    } else if args[0] == "seed-jp"@ {
        StackView::SeedJp
    } else if args[0] == "tenant"@ && args.len() >= 2 {
        match tenant_request(
            if args.len() >= 3 {
                Some(args[2])
            } else {
                None
            },
        ) {
            Some(action) => StackView::Tenant(args[1], action),
            None => StackView::Die(STACK_USAGE@),
        }
    } else {
        StackView::Die(STACK_USAGE@)
    }
}

fn tenant_action(word: Option<&str>) -> (r: Option<TenantAction>)
    ensures
        r == tenant_request(
            match word {
                Some(w) => Some(w@),
                None => None,
            },
        ),
{
    match word {
        None => Some(TenantAction::Up),
        Some(w) => if same_text(w, "stop") || same_text(w, "down") {
            Some(TenantAction::Stop)
        } else if same_text(w, "status") {
            Some(TenantAction::Status)
        } else if same_text(w, "up") || same_text(w, "start") {
            Some(TenantAction::Up)
        } else {
            None
        },
    }
}

/// What a command line of `unidpp-stack` asks for.
pub fn stack_command(args: &Vec<String>) -> (r: StackCommand)
    ensures
        r@ == stack_request(text::views(args@)),
{
    if args.len() == 0 {
        return StackCommand::Die(STACK_USAGE.to_string());
    }
    let word = args[0].as_str();
    if same_text(word, "up") || same_text(word, "start") {
        StackCommand::Up
    } else if same_text(word, "down") || same_text(word, "stop") {
        StackCommand::Down
    } else if same_text(word, "status") {
        StackCommand::Status
    } else if same_text(word, "seed-jp") {
        StackCommand::SeedJp
    } else if same_text(word, "tenant") && args.len() >= 2 {
        let asked: Option<&str> = if args.len() >= 3 {
            Some(args[2].as_str())
        } else {
            None
        };
        match tenant_action(asked) {
            Some(action) => StackCommand::Tenant(args[1].clone(), action),
            None => StackCommand::Die(STACK_USAGE.to_string()),
        }
    } else {
        StackCommand::Die(STACK_USAGE.to_string())
    }
}

} // verus!
