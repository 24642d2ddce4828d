//! The on-prem whitelabel artifact: everything a sovereign customer needs on
//! their own host, verified like a backup. The manifest is the model — only
//! the services it declares ship, and the data-only variant carries tenant
//! state alone for a deployment that already has its engine.

use vstd::prelude::*;
use vstd::slice::*;
use vstd::string::*;

use crate::archive::Member;
use crate::backup;
use crate::backup::{sidecar_of, sidecar_text};
use crate::calendar;
use crate::calendar::{utc_iso, utc_stamp};
use crate::decimal;
use crate::decimal::decimal_of;
use crate::json;
use crate::listing;
use crate::listing::{walk_matching, Tree, TreeView};
use crate::order;
use crate::order::put;
use crate::path;
use crate::path::join;
use crate::plan::{Fault, FaultView, Plan, Step, StepView};
use crate::restore;
use crate::restore::tenant_path;
use crate::services::Pilot;
use crate::text;
use crate::text::{
    begins, cat2, cat3, cat4, cat5, chars_of, contains_text, ends, joined, lead_of, position,
    same_text, text_of, Class,
};
use crate::verify;
use crate::verify::Verified;

verus! {

// ---------------------------------------------------------------------------
// The environment template.
// ---------------------------------------------------------------------------

/// The variable that a text references at a position, as in `${VAR}`.
pub open spec fn variable_at(s: Seq<char>, i: int) -> Option<Seq<char>> {
    if 0 <= i && i + 2 <= s.len() && s[i] == '$' && s[i + 1] == '{' {
        let n = text::lead(s.skip(i + 2), Class::Variable);
        if n > 0 && i + 2 + n < s.len() && s[i + 2 + n] == '}' {
            Some(s.subrange(i + 2, i + 2 + n))
        } else {
            None
        }
    } else {
        None
    }
}

/// The variables that a text references: every `VAR` that stands in it as
/// `${VAR}`.
pub open spec fn variables(s: Seq<char>) -> Set<Seq<char>> {
    Set::new(
        |v: Seq<char>|
            v.len() > 0 && text::all_in(v, Class::Variable) && text::holds_text(
                s,
                "${"@ + v + "}"@,
            ),
    )
}

/// One `VAR=` per line for every variable that a text references.
pub open spec fn template(s: Seq<char>) -> Seq<char> {
    text::join(
        order::listed(variables(s)).map_values(|v: Seq<char>| v + "="@),
        "\n"@,
    )
}

/// To reference a variable is to hold it between `${` and `}`.
proof fn lemma_variable_at(s: Seq<char>, i: int, v: Seq<char>)
    ensures
        variable_at(s, i) == Some(v) <==> (v.len() > 0 && text::all_in(v, Class::Variable)
            && text::occurs_at(s, "${"@ + v + "}"@, i)),
{
    reveal_strlit("${");
    reveal_strlit("}");
    let whole = "${"@ + v + "}"@;
    let rest = s.skip(i + 2);
    text::lemma_lead(rest, Class::Variable);
    let n = text::lead(rest, Class::Variable);
    if variable_at(s, i) == Some(v) {
        assert(v =~= rest.take(n));
        assert forall|k: int| 0 <= k < v.len() implies Class::Variable.has(#[trigger] v[k]) by {
            assert(v[k] == rest[k]);
        }
        assert(s.subrange(i, i + whole.len()) =~= whole);
    }
    if v.len() > 0 && text::all_in(v, Class::Variable) && text::occurs_at(s, whole, i) {
        let at = s.subrange(i, i + whole.len());
        assert(at[0] == '$' && at[1] == '{');
        assert(at[2 + v.len() as int] == '}');
        assert forall|k: int| 0 <= k < v.len() implies Class::Variable.has(#[trigger] rest[k]) by {
            assert(rest[k] == at[k + 2]);
            assert(at[k + 2] == v[k]);
        }
        assert(rest[v.len() as int] == '}');
        text::lemma_lead_is(rest, Class::Variable, v.len() as int);
        assert(s.subrange(i + 2, i + 2 + v.len()) =~= v) by {
            assert forall|k: int| 0 <= k < v.len() implies s[i + 2 + k] == v[k] by {
                assert(at[k + 2] == v[k]);
            }
        }
    }
}

/// Every `${VAR}` the manifest references, one `VAR=` per line for the
/// first-boot environment template.
pub fn env_template(manifest: &str) -> (r: String)
    ensures
        r@ == template(manifest@),
{
    let chars = chars_of(manifest);
    let all = chars.as_slice();
    let ghost s = manifest@;
    let mut vars: Vec<String> = Vec::new();
    let mut i: usize = 0;
    assert(text::views(vars@).to_set() =~= Set::<Seq<char>>::empty());
    assert(text::views(vars@).to_set() =~= Set::new(
        |v: Seq<char>| exists|k: int| 0 <= k < 0 && variable_at(s, k) == Some(v),
    ));
    while i < all.len()
        invariant
            i <= all.len(),
            all@ == s,
            order::ascending(text::views(vars@)),
            text::views(vars@).to_set() == Set::new(
                |v: Seq<char>| exists|k: int| 0 <= k < i && variable_at(s, k) == Some(v),
            ),
        decreases all.len() - i,
    {
        let ghost before = text::views(vars@).to_set();
        let ghost from = i as int;
        let mut next: usize = i + 1;
        if all[i] == '$' && i + 1 < all.len() && all[i + 1] == '{' {
            let rest = slice_subrange(all, i + 2, all.len());
            assert(rest@ =~= s.skip(i + 2));
            let n = lead_of(rest, &Class::Variable);
            proof {
                text::lemma_lead(rest@, Class::Variable);
            }
            if n > 0 && n < rest.len() && rest[n] == '}' {
                let name = slice_subrange(rest, 0, n);
                assert(name@ =~= s.subrange(i + 2, i + 2 + n));
                assert(variable_at(s, from) == Some(name@));
                put(&mut vars, text_of(name));
                next = i + 2 + n + 1;
                proof {
                    assert forall|k: int| from < k < next implies variable_at(s, k) is None by {
                        if k == from + 1 {
                        } else if k < from + 2 + n {
                            assert(rest@[k - from - 2] == s[k]);
                            assert(Class::Variable.has(rest@[k - from - 2]));
                        } else {
                            assert(s[k] == rest@[n as int]);
                        }
                    }
                    let after = text::views(vars@).to_set();
                    assert(after =~= Set::new(
                        |v: Seq<char>|
                            exists|k: int| 0 <= k < next && variable_at(s, k) == Some(v),
                    )) by {
                        assert forall|v: Seq<char>| after.contains(v) <==> exists|k: int|
                            0 <= k < next && variable_at(s, k) == Some(v) by {
                            if after.contains(v) && v != name@ {
                                assert(before.contains(v));
                                let k = choose|k: int|
                                    0 <= k < from && variable_at(s, k) == Some(v);
                                assert(variable_at(s, k) == Some(v));
                            }
                            if exists|k: int| 0 <= k < next && variable_at(s, k) == Some(v) {
                                let k = choose|k: int|
                                    0 <= k < next && variable_at(s, k) == Some(v);
                                if k < from {
                                    assert(before.contains(v));
                                }
                            }
                        }
                    }
                }
            }
        }
        proof {
            if next == from + 1 {
                assert(variable_at(s, from) is None);
                assert(before =~= Set::new(
                    |v: Seq<char>| exists|k: int| 0 <= k < next && variable_at(s, k) == Some(v),
                )) by {
                    assert forall|v: Seq<char>| before.contains(v) <==> exists|k: int|
                        0 <= k < next && variable_at(s, k) == Some(v) by {
                        if before.contains(v) {
                            let k = choose|k: int| 0 <= k < from && variable_at(s, k) == Some(v);
                            assert(variable_at(s, k) == Some(v));
                        }
                        if exists|k: int| 0 <= k < next && variable_at(s, k) == Some(v) {
                            let k = choose|k: int| 0 <= k < next && variable_at(s, k) == Some(v);
                            assert(k < from);
                        }
                    }
                }
            }
        }
        i = next;
    }
    proof {
        let found = text::views(vars@).to_set();
        assert(found =~= variables(s)) by {
            assert forall|v: Seq<char>| found.contains(v) <==> variables(s).contains(v) by {
                if found.contains(v) {
                    let k = choose|k: int| 0 <= k < i && variable_at(s, k) == Some(v);
                    lemma_variable_at(s, k, v);
                }
                if variables(s).contains(v) {
                    let k = choose|k: int| text::occurs_at(s, "${"@ + v + "}"@, k);
                    lemma_variable_at(s, k, v);
                    assert(0 <= k < i);
                }
            }
        }
        order::lemma_listed(text::views(vars@));
    }
    let mut lines: Vec<String> = Vec::new();
    let mut j: usize = 0;
    while j < vars.len()
        invariant
            j <= vars.len(),
            lines@.len() == j,
            forall|k: int| 0 <= k < j ==> (#[trigger] lines@[k])@ == vars@[k]@ + "="@,
        decreases vars.len() - j,
    {
        lines.push(cat2(vars[j].as_str(), "="));
        j += 1;
    }
    assert(text::views(lines@) =~= text::views(vars@).map_values(|v: Seq<char>| v + "="@));
    joined(lines.as_slice(), "\n")
}

// ---------------------------------------------------------------------------
// The runbook.
// ---------------------------------------------------------------------------

/// The runbook, before the tenant name and the production moment are
/// substituted; every other brace and `${VAR}` stays literal.
pub const RUNBOOK: &'static str = r##"# @@TENANT@@ — on-prem deployment bundle

This bundle IS a deployment: the manifest (unidpp-operator.yaml) is
the data; the binaries are the engine. Produced @@PRODUCED@@.

## First boot

    ./bin/unidpp-config validate unidpp-operator.yaml   # always validate first
    cp .env.template .env                               # fill every ${VAR}
    ./unidpp-run start                                  # render-env + ./bin binaries
    ./unidpp-run status

Ports, state files, suites, sovereignty rules: read them from the
manifest — the runner and the services take everything from it.

## Durability

    ./unidpp-ops backup    # snapshot (journals + manifest + seed)
    ./unidpp-ops drill     # the restore rehearsal
    ./unidpp-ops verify <archive>

Full manuals: https://docs.unidpp.org (operations, manifest
reference, every service API).

## Verify this bundle

    shasum -a 256 -c <(python3 -c "import json;print('\n'.join(f'{v}  {k}' for k,v in json.load(open('bundle.json'))['sha256'].items()))")
"##;

/// The text with the first occurrence of `from` replaced.
pub open spec fn replaced(s: Seq<char>, from: Seq<char>, to: Seq<char>) -> Seq<char> {
    match text::find(s, from) {
        Some(i) => s.take(i) + to + s.skip(i + from.len()),
        None => s,
    }
}

fn replace(s: &str, from: &str, to: &str) -> (r: String)
    ensures
        r@ == replaced(s@, from@, to@),
{
    let chars = chars_of(s);
    let needle = chars_of(from);
    match position(chars.as_slice(), needle.as_slice()) {
        Some(i) => {
            proof {
                text::lemma_find(s@, from@);
            }
            let total: usize = chars.len();
            assert(i + needle@.len() <= total);
            let head = slice_subrange(chars.as_slice(), 0, i);
            let tail = slice_subrange(chars.as_slice(), i + needle.len(), total);
            assert(head@ =~= s@.take(i as int));
            assert(tail@ =~= s@.skip(i + from@.len()));
            cat3(text_of(head).as_str(), to, text_of(tail).as_str())
        },
        None => s.to_string(),
    }
}

/// The runbook of a tenant's bundle.
pub fn runbook(tenant: &str, epoch: u64) -> (r: String)
    ensures
        r@ == replaced(
            replaced(RUNBOOK@, "@@TENANT@@"@, tenant@),
            "@@PRODUCED@@"@,
            calendar::iso(epoch as nat),
        ),
{
    replace(
        replace(RUNBOOK, "@@TENANT@@", tenant).as_str(),
        "@@PRODUCED@@",
        utc_iso(epoch).as_str(),
    )
}

// ---------------------------------------------------------------------------
// `bundle <tenant> [--data-only] [--out dir]`.
// ---------------------------------------------------------------------------

/// What `bundle` is asked for.
pub struct BundleRequest {
    pub tenant: String,
    /// Where the bundle goes, if not to the backups.
    pub out: Option<String>,
    pub data_only: bool,
}

/// What the options of `bundle` ask for: where the bundle goes and whether it
/// carries data only.
pub open spec fn bundle_options(
    args: Seq<Seq<char>>,
    out: Option<Seq<char>>,
    data_only: bool,
) -> Option<(Option<Seq<char>>, bool)>
    decreases args.len(),
{
    if args.len() == 0 {
        Some((out, data_only))
    } else if args[0] == "--data-only"@ {
        bundle_options(args.skip(1), out, true)
    } else if args[0] == "--out"@ && args.len() > 1 {
        bundle_options(args.skip(2), Some(args[1]), data_only)
    } else {
        None
    }
}

/// The arguments of `bundle` name a tenant, and options that it knows.
pub open spec fn is_bundle_request(args: Seq<Seq<char>>) -> bool {
    args.len() > 0 && !text::starts_with(args[0], "-"@) && bundle_options(
        args.skip(1),
        None,
        false,
    ) is Some
}

/// A text that may be there.
pub open spec fn view_of(t: Option<String>) -> Option<Seq<char>> {
    match t {
        Some(x) => Some(x@),
        None => None,
    }
}

/// What the arguments of `bundle` ask for.
pub fn bundle_args(args: &Vec<String>) -> (r: Result<BundleRequest, String>)
    ensures
        ({
            let all = text::views(args@);
            match r {
                Ok(q) => is_bundle_request(all) && q.tenant@ == all[0] && bundle_options(
                    all.skip(1),
                    None,
                    false,
                ) == Some((view_of(q.out), q.data_only)),
                Err(m) => !is_bundle_request(all) && m@
                    == "usage: bundle <tenant> [--data-only] [--out dir]"@,
            }
        }),
{
    let ghost all = text::views(args@);
    if args.len() == 0 {
        assert(all.len() == 0);
        return Err("usage: bundle <tenant> [--data-only] [--out dir]".to_string());
    }
    assert(all[0] == args@[0]@);
    if begins(chars_of(args[0].as_str()).as_slice(), chars_of("-").as_slice()) {
        return Err("usage: bundle <tenant> [--data-only] [--out dir]".to_string());
    }
    let mut out: Option<String> = None;
    let mut data_only = false;
    let mut i: usize = 1;
    while i < args.len()
        invariant
            1 <= i <= args.len(),
            all == text::views(args@),
            bundle_options(all.skip(i as int), view_of(out), data_only) == bundle_options(
                all.skip(1),
                None,
                false,
            ),
        decreases args.len() - i,
    {
        let ghost rest = all.skip(i as int);
        assert(rest[0] == args@[i as int]@);
        assert(rest.skip(1) =~= all.skip(i + 1));
        if same_text(args[i].as_str(), "--data-only") {
            data_only = true;
            i += 1;
        } else if same_text(args[i].as_str(), "--out") && i + 1 < args.len() {
            assert(rest[1] == args@[i + 1]@);
            assert(rest.skip(2) =~= all.skip(i + 2));
            out = Some(args[i + 1].clone());
            i += 2;
        } else {
            return Err("usage: bundle <tenant> [--data-only] [--out dir]".to_string());
        }
    }
    assert(all.skip(i as int).len() == 0);
    Ok(BundleRequest { tenant: args[0].clone(), out, data_only })
}

/// The configuration tool of the family.
pub open spec fn config_path(family: Seq<char>) -> Seq<char> {
    path::below(family, "unidpp-config/target/release/unidpp-config"@)
}

/// The configuration tool of the family.
pub fn config_cli(family: &str) -> (r: String)
    ensures
        r@ == config_path(family@),
{
    join(family, "unidpp-config/target/release/unidpp-config")
}

/// What stands against a bundle, if anything: the configuration tool is not
/// there, the tenant has no manifest, or the manifest is not valid.
pub fn bundle_fault(
    config_executable: bool,
    manifest: &str,
    manifest_is_file: bool,
    manifest_valid: bool,
) -> (r: Option<String>)
    ensures
        match r {
            None => config_executable && manifest_is_file && manifest_valid,
            Some(m) => m@ == if !config_executable {
                "unidpp-config binary missing (build ../unidpp-config)"@
            } else if !manifest_is_file {
                "no tenant manifest at "@ + manifest@
            } else {
                "tenant manifest does not validate — fix it before bundling"@
            } && !(config_executable && manifest_is_file && manifest_valid),
        },
{
    if !config_executable {
        Some("unidpp-config binary missing (build ../unidpp-config)".to_string())
    } else if !manifest_is_file {
        Some(cat2("no tenant manifest at ", manifest))
    } else if !manifest_valid {
        Some("tenant manifest does not validate — fix it before bundling".to_string())
    } else {
        None
    }
}

/// A bundle in the making.
pub struct Bundle {
    pub tenant: String,
    pub data_only: bool,
    pub label: String,
    /// The moment it is made, in the house format.
    pub taken_at: String,
    /// Where the bundle goes.
    pub out_dir: String,
    pub archive: String,
    /// The scratch directory that the bundle is staged in.
    pub stage: String,
    /// The tenant's directory in the deployment.
    pub home: String,
    /// The directory with the family's repositories.
    pub family: String,
}

/// The label of a bundle.
pub open spec fn bundle_label(tenant: Seq<char>, data_only: bool, epoch: nat) -> Seq<char> {
    tenant + (if data_only {
        "-data-"@
    } else {
        "-bundle-"@
    }) + calendar::stamp(epoch)
}

/// What a bundle is made of.
pub fn cmd_bundle(
    root: &str,
    family: &str,
    backups: &str,
    stage: &str,
    request: &BundleRequest,
    epoch: u64,
) -> (r: Bundle)
    ensures
        r.tenant@ == request.tenant@,
        r.data_only == request.data_only,
        r.label@ == bundle_label(request.tenant@, request.data_only, epoch as nat),
        r.taken_at@ == calendar::stamp(epoch as nat),
        r.out_dir@ == match request.out {
            Some(dir) => dir@,
            None => backups@,
        },
        r.archive@ == path::below(r.out_dir@, r.label@ + ".tar.gz"@),
        r.stage@ == stage@,
        r.home@ == restore::tenant_dir(root@, request.tenant@),
        r.family@ == family@,
{
    let taken_at = utc_stamp(epoch);
    let label = cat3(
        request.tenant.as_str(),
        if request.data_only {
            "-data-"
        } else {
            "-bundle-"
        },
        taken_at.as_str(),
    );
    let out_dir: String = match &request.out {
        Some(dir) => dir.clone(),
        None => backups.to_string(),
    };
    let archive = join(out_dir.as_str(), cat2(label.as_str(), ".tar.gz").as_str());
    Bundle {
        tenant: request.tenant.clone(),
        data_only: request.data_only,
        label,
        taken_at,
        out_dir,
        archive,
        stage: stage.to_string(),
        home: tenant_path(root, request.tenant.as_str()),
        family: family.to_string(),
    }
}

impl Bundle {
    /// The directory that becomes the bundle.
    pub open spec fn staged(self) -> Seq<char> {
        path::below(self.stage@, self.tenant@)
    }

    /// The directory of the bundle's programs.
    pub open spec fn bin(self) -> Seq<char> {
        path::below(self.staged(), "bin"@)
    }

    /// The tenant's manifest.
    pub open spec fn manifest(self) -> Seq<char> {
        path::below(self.home@, "unidpp-operator.yaml"@)
    }

    fn staged_path(&self) -> (r: String)
        ensures
            r@ == self.staged(),
    {
        join(self.stage.as_str(), self.tenant.as_str())
    }

    /// The tenant's manifest.
    pub fn manifest_path(&self) -> (r: String)
        ensures
            r@ == self.manifest(),
    {
        join(self.home.as_str(), "unidpp-operator.yaml")
    }
}

/// A journal's name.
pub open spec fn is_journal() -> spec_fn(Seq<char>) -> bool {
    |name: Seq<char>| text::ends_with(name, ".jsonl"@)
}

/// The journals below a tenant's directory.
pub fn tenant_journals(entries: &Vec<Tree>) -> (r: Vec<String>)
    ensures
        text::views(r@) == listing::walk(Tree::models(entries@), is_journal()),
{
    let journal = |name: &str| -> (r: bool)
        ensures
            r == is_journal()(name@),
        { ends(chars_of(name).as_slice(), chars_of(".jsonl").as_slice()) };
    assert(listing::says(journal, is_journal()));
    walk_matching(entries, journal)
}

/// The steps that stage the tenant's state: the manifest verbatim, plus every
/// journal under the tenant.
pub open spec fn state_steps(bundle: Bundle, journals: Seq<Seq<char>>) -> Seq<StepView> {
    seq![
        StepView::MakeDir {
            path: bundle.out_dir@,
            fault: FaultView::Die("cannot create "@ + bundle.out_dir@),
        },
        StepView::MakeDir { path: bundle.bin(), fault: FaultView::Die("cannot stage"@) },
        StepView::Copy {
            from: bundle.manifest(),
            to: path::below(bundle.staged(), "unidpp-operator.yaml"@),
        },
    ] + journals.map_values(
        |rel: Seq<char>|
            StepView::Stage {
                from: path::below(bundle.home@, rel),
                to: path::below(bundle.staged(), "tenants/"@ + bundle.tenant@ + "/"@ + rel),
            },
    )
}

/// Stage the tenant's state.
pub fn stage_state(bundle: &Bundle, journals: &Vec<String>) -> (r: Plan)
    ensures
        r@ == state_steps(*bundle, text::views(journals@)),
{
    let staged = bundle.staged_path();
    let ghost all = state_steps(*bundle, text::views(journals@));
    let mut plan = Plan::new();
    plan.then_do(
        Step::MakeDir {
            path: bundle.out_dir.clone(),
            fault: Fault::Die(cat2("cannot create ", bundle.out_dir.as_str())),
        },
    );
    plan.then_do(
        Step::MakeDir {
            path: join(staged.as_str(), "bin"),
            fault: Fault::Die("cannot stage".to_string()),
        },
    );
    plan.then_do(
        Step::Copy {
            from: bundle.manifest_path(),
            to: join(staged.as_str(), "unidpp-operator.yaml"),
        },
    );
    assert(plan@ =~= all.take(3));
    let mut i: usize = 0;
    while i < journals.len()
        invariant
            i <= journals.len(),
            staged@ == bundle.staged(),
            all == state_steps(*bundle, text::views(journals@)),
            plan@ == all.take(i + 3),
        decreases journals.len() - i,
    {
        let rel = journals[i].as_str();
        let inner = cat4("tenants/", bundle.tenant.as_str(), "/", rel);
        plan.then_do(
            Step::Stage {
                from: join(bundle.home.as_str(), rel),
                to: join(staged.as_str(), inner.as_str()),
            },
        );
        assert(text::views(journals@)[i as int] == rel@);
        assert(all.take(i + 4) =~= all.take(i + 3).push(all[i + 3]));
        i += 1;
    }
    assert(all.take(i + 3) =~= all);
    plan
}

/// A declared service, and whether its program is there.
pub struct Binary {
    pub service: String,
    pub executable: bool,
}

/// The program of a declared service.
pub open spec fn service_binary(family: Seq<char>, service: Seq<char>) -> Seq<char> {
    path::below(
        path::below(path::below(family, "unidpp-"@ + service), "target/release"@),
        "unidpp-"@ + service,
    )
}

/// The program of a declared service.
pub fn binary_of(family: &str, service: &str) -> (r: String)
    ensures
        r@ == service_binary(family@, service@),
{
    let repo = cat2("unidpp-", service);
    join(join(join(family, repo.as_str()).as_str(), "target/release").as_str(), repo.as_str())
}

/// What is missing of the programs that a bundle carries.
pub open spec fn engine_fault(
    family: Seq<char>,
    binaries: Seq<Binary>,
    exe_dir: Option<Seq<char>>,
    ops: bool,
    runner: bool,
) -> Option<Seq<char>>
    decreases binaries.len(),
{
    if binaries.len() > 0 {
        if !binaries[0].executable {
            Some(
                "binary for declared service '"@ + binaries[0].service@ + "' missing: "@
                    + service_binary(family, binaries[0].service@),
            )
        } else {
            engine_fault(family, binaries.skip(1), exe_dir, ops, runner)
        }
    } else {
        match exe_dir {
            None => Some("cannot resolve the running binary's directory"@),
            Some(dir) => if !ops {
                Some("unidpp-ops binary missing: "@ + path::below(dir, "unidpp-ops"@))
            } else if !runner {
                Some(
                    "unidpp-run binary missing (build the ops crate): "@ + path::below(
                        dir,
                        "unidpp-run"@,
                    ),
                )
            } else {
                None
            },
        }
    }
}

/// The steps that stage the programs: those of exactly the declared services,
/// the configuration tool, the durability program and the runner.
pub open spec fn engine_steps(
    bundle: Bundle,
    binaries: Seq<Binary>,
    exe_dir: Seq<char>,
) -> Seq<StepView> {
    binaries.map_values(
        |b: Binary|
            StepView::Copy {
                from: service_binary(bundle.family@, b.service@),
                to: path::below(bundle.bin(), "unidpp-"@ + b.service@),
            },
    ) + seq![
        StepView::Copy {
            from: config_path(bundle.family@),
            to: path::below(bundle.bin(), "unidpp-config"@),
        },
        StepView::Copy {
            from: path::below(exe_dir, "unidpp-ops"@),
            to: path::below(bundle.staged(), "unidpp-ops"@),
        },
        StepView::Copy {
            from: path::below(exe_dir, "unidpp-run"@),
            to: path::below(bundle.staged(), "unidpp-run"@),
        },
        StepView::MarkExecutable { path: path::below(bundle.staged(), "unidpp-run"@) },
    ]
}

/// Stage the programs: binaries for exactly the declared services (the
/// manifest is the model), the config CLI, the tenant runner, and the ops
/// contract. The data-only artifact carries none of these. `ops` and `runner`
/// say whether the programs are there.
pub fn stage_engine(
    bundle: &Bundle,
    binaries: &Vec<Binary>,
    exe_dir: Option<&str>,
    ops: bool,
    runner: bool,
) -> (r: Result<Plan, String>)
    ensures
        ({
            let dir = match exe_dir {
                Some(d) => Some(d@),
                None => None,
            };
            let fault = engine_fault(bundle.family@, binaries@, dir, ops, runner);
            match r {
                Ok(plan) => if bundle.data_only {
                    plan@ == Seq::<StepView>::empty()
                } else {
                    fault is None && dir is Some && plan@ == engine_steps(
                        *bundle,
                        binaries@,
                        dir->0,
                    )
                },
                Err(m) => !bundle.data_only && fault == Some(m@),
            }
        }),
{
    if bundle.data_only {
        return Ok(Plan::new());
    }
    let staged = bundle.staged_path();
    let bin = join(staged.as_str(), "bin");
    let ghost dir = match exe_dir {
        Some(d) => Some(d@),
        None => None,
    };
    let ghost fault = engine_fault(bundle.family@, binaries@, dir, ops, runner);
    let ghost all = engine_steps(*bundle, binaries@, dir->0);
    let mut plan = Plan::new();
    let mut i: usize = 0;
    assert(binaries@.skip(0) =~= binaries@);
    assert(plan@ =~= all.take(0));
    while i < binaries.len()
        invariant
            i <= binaries.len(),
            !bundle.data_only,
            bin@ == bundle.bin(),
            all == engine_steps(*bundle, binaries@, dir->0),
            plan@ == all.take(i as int),
            dir == match exe_dir {
                Some(d) => Some(d@),
                None => None,
            },
            fault == engine_fault(bundle.family@, binaries@, dir, ops, runner),
            fault == engine_fault(bundle.family@, binaries@.skip(i as int), dir, ops, runner),
        decreases binaries.len() - i,
    {
        assert(binaries@.skip(i as int)[0] == binaries@[i as int]);
        assert(binaries@.skip(i as int).skip(1) =~= binaries@.skip(i + 1));
        let service = binaries[i].service.as_str();
        let from = binary_of(bundle.family.as_str(), service);
        if !binaries[i].executable {
            return Err(
                cat4(
                    "binary for declared service '",
                    service,
                    "' missing: ",
                    from.as_str(),
                ),
            );
        }
        plan.then_do(
            Step::Copy { from, to: join(bin.as_str(), cat2("unidpp-", service).as_str()) },
        );
        assert(all.take(i + 1) =~= all.take(i as int).push(all[i as int]));
        i += 1;
    }
    assert(binaries@.skip(i as int).len() == 0);
    let from_dir: &str = match exe_dir {
        Some(d) => d,
        None => {
            return Err("cannot resolve the running binary's directory".to_string());
        },
    };
    let self_exe = join(from_dir, "unidpp-ops");
    if !ops {
        return Err(cat2("unidpp-ops binary missing: ", self_exe.as_str()));
    }
    let run_exe = join(from_dir, "unidpp-run");
    if !runner {
        return Err(
            cat2("unidpp-run binary missing (build the ops crate): ", run_exe.as_str()),
        );
    }
    let staged_runner = join(staged.as_str(), "unidpp-run");
    plan.then_do(
        Step::Copy {
            from: config_cli(bundle.family.as_str()),
            to: join(bin.as_str(), "unidpp-config"),
        },
    );
    plan.then_do(Step::Copy { from: self_exe, to: join(staged.as_str(), "unidpp-ops") });
    plan.then_do(Step::Copy { from: run_exe, to: staged_runner.clone() });
    plan.then_do(Step::MarkExecutable { path: staged_runner });
    assert(plan@ =~= all);
    Ok(plan)
}

/// Stage the papers: the first-boot environment template and the runbook.
pub fn stage_papers(bundle: &Bundle, manifest: &str, epoch: u64) -> (r: Plan)
    ensures
        r@ == seq![
            StepView::Write {
                path: path::below(bundle.staged(), ".env.template"@),
                text: template(manifest@),
                fault: FaultView::Die(".env.template"@),
            },
            StepView::Write {
                path: path::below(bundle.staged(), "RUNBOOK.md"@),
                text: replaced(
                    replaced(RUNBOOK@, "@@TENANT@@"@, bundle.tenant@),
                    "@@PRODUCED@@"@,
                    calendar::iso(epoch as nat),
                ),
                fault: FaultView::Die("RUNBOOK.md"@),
            },
        ],
{
    let staged = bundle.staged_path();
    let mut plan = Plan::new();
    plan.then_do(
        Step::Write {
            path: join(staged.as_str(), ".env.template"),
            text: env_template(manifest),
            fault: Fault::Die(".env.template".to_string()),
        },
    );
    plan.then_do(
        Step::Write {
            path: join(staged.as_str(), "RUNBOOK.md"),
            text: runbook(bundle.tenant.as_str(), epoch),
            fault: Fault::Die("RUNBOOK.md".to_string()),
        },
    );
    plan
}

/// The consistency point of a bundle.
pub open spec fn no_head() -> Seq<char> {
    "n/a (a bundle is configuration + binaries, not a journal snapshot)"@
}

/// The document that a bundle's sidecar holds.
pub open spec fn bundle_doc(bundle: Bundle, members: Seq<Member>) -> json::JsonView {
    backup::sidecar_doc(
        "bundle"@,
        bundle.label@,
        bundle.tenant@,
        bundle.taken_at@,
        no_head(),
        backup::contents(members),
    )
}

/// What completes a bundle once its archive is written: the sidecar, the
/// bundle's own checksum map, verified exactly like a backup's; the report
/// unless it is not wanted; and the end of the staging directory.
pub fn finish_bundle(bundle: &Bundle, members: &Vec<Member>, quiet: bool) -> (r: Plan)
    ensures
        ({
            let doc = bundle_doc(*bundle, members@);
            let text = json::pretty_text(doc);
            &&& r@ == seq![
                StepView::Write {
                    path: backup::sidecar_path(bundle.archive@),
                    text,
                    fault: FaultView::Die("cannot write the bundle sidecar"@),
                },
            ] + (if quiet {
                seq![]
            } else {
                seq![
                    StepView::Say("bundle: "@ + bundle.label@),
                    StepView::Say(
                        "  files: "@ + decimal::decimal(
                            backup::contents(members@).dom().len(),
                        ) + "  archive: "@ + bundle.archive@,
                    ),
                ]
            }) + seq![StepView::RemoveTree { path: bundle.stage@ }]
            &&& json::parsed(text) is Ok
            &&& json::parsed(text)->Ok_0 == doc
        }),
{
    let (text, count) = sidecar_text(
        "bundle",
        bundle.label.as_str(),
        bundle.tenant.as_str(),
        bundle.taken_at.as_str(),
        "n/a (a bundle is configuration + binaries, not a journal snapshot)",
        members,
    );
    let mut plan = Plan::new();
    plan.then_do(
        Step::Write {
            path: sidecar_of(bundle.archive.as_str()),
            text,
            fault: Fault::Die("cannot write the bundle sidecar".to_string()),
        },
    );
    if !quiet {
        plan.say(cat2("bundle: ", bundle.label.as_str()));
        plan.say(
            cat4(
                "  files: ",
                decimal_of(count as u64).as_str(),
                "  archive: ",
                bundle.archive.as_str(),
            ),
        );
    }
    plan.then_do(Step::RemoveTree { path: bundle.stage.clone() });
    plan
}

// ---------------------------------------------------------------------------
// `decommission <tenant>`.
// ---------------------------------------------------------------------------

/// A tenant may be retired: it does not bear a retired name, and it is there.
pub open spec fn can_retire(tenant: Seq<char>, is_dir: bool) -> bool {
    !text::holds_text(tenant, ".retired."@) && is_dir
}

/// A tenant of a deployment that may be retired.
pub struct Leaving {
    root: String,
    tenant: String,
    is_dir: bool,
}

impl Leaving {
    /// The root of the deployment.
    pub closed spec fn root(self) -> Seq<char> {
        self.root@
    }

    /// The tenant's name.
    pub closed spec fn tenant(self) -> Seq<char> {
        self.tenant@
    }

    /// The tenant's directory is there.
    pub closed spec fn is_there(self) -> bool {
        self.is_dir
    }

    #[verifier::type_invariant]
    spec fn inv(self) -> bool {
        can_retire(self.tenant@, self.is_dir)
    }
}

/// Whether a tenant may be retired, or what stands against it.
pub fn clear_to_retire(root: &str, tenant: &str, is_dir: bool) -> (r: Result<Leaving, String>)
    ensures
        match r {
            Ok(l) => {
                &&& can_retire(tenant@, is_dir)
                &&& l.root() == root@
                &&& l.tenant() == tenant@
                &&& l.is_there() == is_dir
            },
            Err(m) => if text::holds_text(tenant@, ".retired."@) {
                m@ == "'"@ + tenant@ + "' is already a retired (rename-aside) name"@
            } else {
                !is_dir && m@ == "no tenant directory at tenants/"@ + tenant@
            },
        },
{
    if contains_text(chars_of(tenant).as_slice(), chars_of(".retired.").as_slice()) {
        Err(cat3("'", tenant, "' is already a retired (rename-aside) name"))
    } else if !is_dir {
        Err(cat2("no tenant directory at tenants/", tenant))
    } else {
        Ok(Leaving { root: root.to_string(), tenant: tenant.to_string(), is_dir })
    }
}

/// The name that a retired tenant is moved aside to.
pub open spec fn retired_name(tenant: Seq<char>, epoch: nat) -> Seq<char> {
    tenant + "."@ + ("retired."@ + calendar::stamp(epoch))
}

/// What retires a tenant whose state a bundle preserves.
pub open spec fn retirement(
    bundle: Seq<char>,
    root: Seq<char>,
    tenant: Seq<char>,
    epoch: nat,
) -> Seq<StepView> {
    let aside = retired_name(tenant, epoch);
    seq![
        StepView::Rename {
            from: restore::tenant_dir(root, tenant),
            to: restore::tenant_dir(root, aside),
            fault: FaultView::Die("cannot move the tenant aside"@),
        },
        StepView::Say("decommission: tenants/"@ + tenant + " -> tenants/"@ + aside),
        StepView::Say("  preserved: "@ + bundle + " (verified)"@),
        StepView::Say(
            "  reversal:  mv tenants/"@ + aside + " tenants/"@ + tenant + " && ./tenants/up.sh "@
                + tenant + " start"@,
        ),
    ]
}

/// The archive is a data bundle of the tenant among the backups.
pub open spec fn is_data_bundle(
    archive: Seq<char>,
    backups: Seq<char>,
    tenant: Seq<char>,
) -> bool {
    text::starts_with(archive, path::below(backups, tenant + "-data-"@)) && text::ends_with(
        archive,
        ".tar.gz"@,
    )
}

/// The archive preserves the tenant: it is a data bundle, and its sidecar
/// records that tenant.
pub open spec fn preserves(bundle: Verified, backups: Seq<char>, tenant: Seq<char>) -> bool {
    is_data_bundle(bundle.path(), backups, tenant) && verify::recorded_tenant(
        bundle.recorded().document(),
    ) == Some(tenant)
}

/// `decommission <tenant>` — retire a tenant the doctrine-shaped way: its
/// state is preserved (a final verified data-only bundle), so it is moved
/// aside. Never delete — the same rule restore and recover follow. A bundle
/// that does not preserve the tenant leaves it in place.
pub fn cmd_decommission(bundle: &Verified, backups: &str, leaving: &Leaving, epoch: u64) -> (r:
    Result<Plan, String>)
    ensures
        can_retire(leaving.tenant(), leaving.is_there()),
        match r {
            Ok(plan) => preserves(*bundle, backups@, leaving.tenant()) && plan@ == retirement(
                bundle.path(),
                leaving.root(),
                leaving.tenant(),
                epoch as nat,
            ),
            Err(m) => !preserves(*bundle, backups@, leaving.tenant()) && m@ == "decommission: "@
                + bundle.path() + " does not preserve '"@ + leaving.tenant() + "'"@,
        },
{
    proof {
        use_type_invariant(leaving);
    }
    let root = leaving.root.as_str();
    let tenant = leaving.tenant.as_str();
    let chars = chars_of(bundle.archive());
    let head = chars_of(join(backups, cat2(tenant, "-data-").as_str()).as_str());
    let is_own = match bundle.record().tenant() {
        Some(t) => same_text(t.as_str(), tenant),
        None => false,
    };
    if !is_own || !begins(chars.as_slice(), head.as_slice()) || !ends(
        chars.as_slice(),
        chars_of(".tar.gz").as_slice(),
    ) {
        return Err(
            cat5("decommission: ", bundle.archive(), " does not preserve '", tenant, "'"),
        );
    }
    let stamp = cat2("retired.", utc_stamp(epoch).as_str());
    let aside = cat3(tenant, ".", stamp.as_str());
    let mut plan = Plan::new();
    plan.then_do(
        Step::Rename {
            from: tenant_path(root, tenant),
            to: tenant_path(root, aside.as_str()),
            fault: Fault::Die("cannot move the tenant aside".to_string()),
        },
    );
    plan.say(cat4("decommission: tenants/", tenant, " -> tenants/", aside.as_str()));
    plan.say(cat3("  preserved: ", bundle.archive(), " (verified)"));
    let reversal = cat4("  reversal:  mv tenants/", aside.as_str(), " tenants/", tenant);
    plan.say(cat4(reversal.as_str(), " && ./tenants/up.sh ", tenant, " start"));
    Ok(plan)
}

/// The data bundle of a tenant preserves it, whatever the tenant is called and
/// whatever other bundles there are: a retirement accepts the bundle that was
/// made for it once it has passed the verification.
pub proof fn law_final_bundle_is_accepted(
    made: Bundle,
    verified: Verified,
    backups: Seq<char>,
    members: Seq<Member>,
    epoch: nat,
)
    requires
        made.label@ == bundle_label(made.tenant@, true, epoch),
        made.archive@ == path::below(backups, made.label@ + ".tar.gz"@),
        verified.path() == made.archive@,
        verified.recorded().document() == bundle_doc(made, members),
    ensures
        preserves(verified, backups, made.tenant@),
{
    reveal_strlit("/");
    reveal_strlit("-data-");
    let tenant = made.tenant@;
    verify::law_fresh_archive_verifies(
        "bundle"@,
        made.label@,
        tenant,
        made.taken_at@,
        no_head(),
        members,
    );
    let head = tenant + "-data-"@;
    let name = bundle_label(tenant, true, epoch) + ".tar.gz"@;
    assert(name =~= head + (calendar::stamp(epoch) + ".tar.gz"@));
    assert(name.take(1) =~= head.take(1));
    let archive = path::below(backups, name);
    let start = path::below(backups, head);
    assert(archive.take(start.len() as int) =~= start);
    assert(archive.skip(archive.len() - ".tar.gz"@.len()) =~= ".tar.gz"@);
}

/// A retired tenant stays retired: its new name is refused.
pub proof fn law_retired_names_are_refused(tenant: Seq<char>, epoch: nat, is_dir: bool)
    ensures
        !can_retire(retired_name(tenant, epoch), is_dir),
{
    reveal_strlit(".retired.");
    reveal_strlit("retired.");
    reveal_strlit(".");
    let name = retired_name(tenant, epoch);
    let n = tenant.len() as int;
    assert(name.subrange(n, n + ".retired."@.len()) =~= ".retired."@);
    assert(text::occurs_at(name, ".retired."@, n));
}

/// A bundle carries the whole state of its tenant: the manifest, and every
/// journal below the tenant's directory, however deep, each at its place in the
/// layout of a deployment.
pub proof fn law_a_bundle_carries_every_journal(
    bundle: Bundle,
    entries: Seq<TreeView>,
    path: Seq<char>,
    name: Seq<char>,
)
    requires
        listing::leads_to(entries, path, name),
        text::ends_with(name, ".jsonl"@),
    ensures
        ({
            let steps = state_steps(bundle, listing::walk(entries, is_journal()));
            let staged = path::below(bundle.stage@, bundle.tenant@);
            &&& steps.contains(
                StepView::Copy {
                    from: path::below(bundle.home@, "unidpp-operator.yaml"@),
                    to: path::below(staged, "unidpp-operator.yaml"@),
                },
            )
            &&& steps.contains(
                StepView::Stage {
                    from: path::below(bundle.home@, path),
                    to: path::below(staged, "tenants/"@ + bundle.tenant@ + "/"@ + path),
                },
            )
        }),
{
    let journals = listing::walk(entries, is_journal());
    let steps = state_steps(bundle, journals);
    listing::law_walks_find_every_match(entries, is_journal(), path);
    assert(is_journal()(name));
    assert(journals.contains(path));
    let i = choose|i: int| 0 <= i < journals.len() && journals[i] == path;
    assert(steps[2] is Copy);
    assert(steps[3 + i] == (StepView::Stage {
        from: path::below(bundle.home@, path),
        to: path::below(bundle.staged(), "tenants/"@ + bundle.tenant@ + "/"@ + path),
    }));
}

/// A bundle with an engine carries the program of every declared service, the
/// tool that reads its manifest, the tool that restores it and its runner, from
/// where the pilot has them.
pub proof fn law_a_bundle_carries_its_engine(
    bundle: Bundle,
    binaries: Seq<Binary>,
    exe_dir: Seq<char>,
    pilot: Pilot,
    i: int,
)
    requires
        0 <= i < binaries.len(),
        pilot.family@ == bundle.family@,
    ensures
        ({
            let steps = engine_steps(bundle, binaries, exe_dir);
            let staged = path::below(bundle.stage@, bundle.tenant@);
            let bin = path::below(staged, "bin"@);
            let repo = "unidpp-"@ + binaries[i].service@;
            &&& steps.contains(
                StepView::Copy { from: pilot.program(repo), to: path::below(bin, repo) },
            )
            &&& steps.contains(
                StepView::Copy {
                    from: path::below(
                        bundle.family@,
                        "unidpp-config/target/release/unidpp-config"@,
                    ),
                    to: path::below(bin, "unidpp-config"@),
                },
            )
            &&& steps.contains(
                StepView::Copy {
                    from: path::below(exe_dir, "unidpp-ops"@),
                    to: path::below(staged, "unidpp-ops"@),
                },
            )
            &&& steps.contains(
                StepView::Copy {
                    from: path::below(exe_dir, "unidpp-run"@),
                    to: path::below(staged, "unidpp-run"@),
                },
            )
            &&& steps.last() == (StepView::MarkExecutable {
                path: path::below(staged, "unidpp-run"@),
            })
        }),
{
    let steps = engine_steps(bundle, binaries, exe_dir);
    let n = binaries.len() as int;
    assert(steps[i] is Copy);
    assert(steps[n] is Copy);
    assert(steps[n + 1] is Copy);
    assert(steps[n + 2] is Copy);
}

} // verus!
