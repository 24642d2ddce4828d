//! The service model: one row per listener, its environment derived from the
//! manifest where the manifest carries it and from static wiring where the
//! pilot predates the manifest field.

use vstd::prelude::*;
use vstd::string::*;

use crate::backup;
use crate::decimal;
use crate::environment;
use crate::environment::{environment_of, push_pair, push_pairs};
use crate::listing;
use crate::listing::TreeView;
use crate::path;
use crate::path::join;
use crate::recover;
use crate::restore;
use crate::text;
use crate::text::{same_text, Class};

verus! {

/// The directory of the pilot, and the one with the family's repositories.
pub struct Pilot {
    pub dir: String,
    pub family: String,
}

impl Pilot {
    /// The directory with the pid files and the logs.
    pub open spec fn run(self) -> Seq<char> {
        path::below(self.dir@, "run"@)
    }

    /// The operator manifest.
    pub open spec fn operator_manifest(self) -> Seq<char> {
        path::below(self.dir@, "unidpp-operator.yaml"@)
    }

    /// The program of a repository.
    pub open spec fn program(self, repo: Seq<char>) -> Seq<char> {
        path::below(path::below(path::below(self.family@, repo), "target/release"@), repo)
    }

    /// The directory with the pid files and the logs.
    pub fn run_dir(&self) -> (r: String)
        ensures
            r@ == self.run(),
    {
        join(self.dir.as_str(), "run")
    }

    /// The operator manifest.
    pub fn manifest(&self) -> (r: String)
        ensures
            r@ == self.operator_manifest(),
    {
        join(self.dir.as_str(), "unidpp-operator.yaml")
    }

    /// The program of a repository.
    pub fn bin(&self, repo: &str) -> (r: String)
        ensures
            r@ == self.program(repo@),
    {
        join(join(join(self.family.as_str(), repo).as_str(), "target/release").as_str(), repo)
    }
}

/// Where the value of a variable comes from, as mathematics.
pub enum SourceView {
    Fixed(Seq<char>),
    Rendered(Seq<char>),
    RunJournal(Seq<char>),
}

/// Where the value of a variable comes from.
pub enum EnvSource {
    Fixed(String),
    /// The rendered environment of this manifest service, inlined.
    Rendered(String),
    /// A journal in the run directory.
    RunJournal(String),
}

impl View for EnvSource {
    type V = SourceView;

    open spec fn view(&self) -> SourceView {
        match self {
            EnvSource::Fixed(v) => SourceView::Fixed(v@),
            EnvSource::Rendered(s) => SourceView::Rendered(s@),
            EnvSource::RunJournal(f) => SourceView::RunJournal(f@),
        }
    }
}

/// One row of the service table, as mathematics.
pub struct SpecView {
    pub name: Seq<char>,
    pub repo: Seq<char>,
    pub port: nat,
    pub env: Seq<(Seq<char>, SourceView)>,
}

/// One row of the service table.
pub struct ServiceSpec {
    /// The listener's name (its pid/log stem under run/).
    pub name: String,
    /// The family repo (also the binary name).
    pub repo: String,
    /// The loopback port.
    pub port: u16,
    /// The environment: name, value-or-manifest-derived.
    pub env: Vec<(String, EnvSource)>,
}

/// The environment of a row as mathematics.
pub open spec fn source_views(env: Seq<(String, EnvSource)>) -> Seq<(Seq<char>, SourceView)> {
    env.map_values(|e: (String, EnvSource)| (e.0@, e.1@))
}

impl View for ServiceSpec {
    type V = SpecView;

    open spec fn view(&self) -> SpecView {
        SpecView {
            name: self.name@,
            repo: self.repo@,
            port: self.port as nat,
            env: source_views(self.env@),
        }
    }
}

fn row(name: &str, repo: &str, port: u16) -> (r: ServiceSpec)
    ensures
        r@ == (SpecView { name: name@, repo: repo@, port: port as nat, env: seq![] }),
{
    let r = ServiceSpec { name: name.to_string(), repo: repo.to_string(), port, env: Vec::new() };
    assert(source_views(r.env@) =~= seq![]);
    r
}

impl ServiceSpec {
    fn with(self, name: &str, source: EnvSource) -> (r: ServiceSpec)
        ensures
            r@ == (SpecView { env: self@.env.push((name@, source@)), ..self@ }),
    {
        let mut out = self;
        let ghost before = source_views(out.env@);
        out.env.push((name.to_string(), source));
        assert(source_views(out.env@) =~= before.push((name@, source@)));
        out
    }

    fn fixed(self, name: &str, value: &str) -> (r: ServiceSpec)
        ensures
            r@ == (SpecView {
                env: self@.env.push((name@, SourceView::Fixed(value@))),
                ..self@
            }),
    {
        self.with(name, EnvSource::Fixed(value.to_string()))
    }

    fn journal(self, name: &str, file: &str) -> (r: ServiceSpec)
        ensures
            r@ == (SpecView {
                env: self@.env.push((name@, SourceView::RunJournal(file@))),
                ..self@
            }),
    {
        self.with(name, EnvSource::RunJournal(file.to_string()))
    }

    fn rendered(self, name: &str, service: &str) -> (r: ServiceSpec)
        ensures
            r@ == (SpecView {
                env: self@.env.push((name@, SourceView::Rendered(service@))),
                ..self@
            }),
    {
        self.with(name, EnvSource::Rendered(service.to_string()))
    }
}

/// The rows of a table as mathematics.
pub open spec fn rows(table: Seq<ServiceSpec>) -> Seq<SpecView> {
    table.map_values(|s: ServiceSpec| s@)
}

fn push_row(table: &mut Vec<ServiceSpec>, spec: ServiceSpec)
    ensures
        rows(final(table)@) == rows(old(table)@).push(spec@),
{
    let ghost before = rows(table@);
    table.push(spec);
    assert(rows(table@) =~= before.push(spec@));
}

/// The service table of a pilot; `tsa` is where the log has its external
/// timestamps from.
pub open spec fn service_table(pilot: Pilot, tsa: Seq<char>) -> Seq<SpecView> {
    let dir = pilot.dir@;
    seq![
        SpecView {
            name: "registry"@,
            repo: "unidpp-registry"@,
            port: 8390,
            env: seq![
                ("UNIDPP_REGISTRY_BIND"@, SourceView::Fixed("127.0.0.1:8390"@)),
                (
                    "UNIDPP_REGISTRY_STATE_FILE"@,
                    SourceView::Fixed(path::below(dir, "registry-journal.jsonl"@)),
                ),
            ],
        },
        SpecView {
            name: "trust"@,
            repo: "unidpp-trust"@,
            port: 8391,
            env: seq![
                ("UNIDPP_TRUST_BIND"@, SourceView::Fixed("127.0.0.1:8391"@)),
                ("UNIDPP_TRUST_STATE_FILE"@, SourceView::RunJournal("trust-journal.jsonl"@)),
            ],
        },
        SpecView {
            name: "log"@,
            repo: "unidpp-log"@,
            port: 8392,
            env: seq![
                ("UNIDPP_LOG_BIND"@, SourceView::Fixed("127.0.0.1:8392"@)),
                ("UNIDPP_LOG_ID"@, SourceView::Fixed("unidpp-pilot-log-1"@)),
                ("UNIDPP_LOG_STATE_FILE"@, SourceView::RunJournal("log-journal.jsonl"@)),
                ("UNIDPP_LOG_EXTERNAL_TSA_URL"@, SourceView::Fixed(tsa)),
            ],
        },
        SpecView {
            name: "issuer"@,
            repo: "unidpp-issuer"@,
            port: 8393,
            env: seq![
                ("UNIDPP_ISSUER_BIND"@, SourceView::Fixed("127.0.0.1:8393"@)),
                ("UNIDPP_ISSUER_STATE_FILE"@, SourceView::RunJournal("issuer-journal.jsonl"@)),
                ("UNIDPP_ISSUER_REGISTRY_URL"@, SourceView::Fixed("http://127.0.0.1:8390"@)),
            ],
        },
        SpecView {
            name: "projector"@,
            repo: "unidpp-projector"@,
            port: 8394,
            env: seq![
                ("UNIDPP_PROJECTOR_BIND"@, SourceView::Fixed("127.0.0.1:8394"@)),
                ("UNIDPP_REGISTRY_URL"@, SourceView::Fixed("http://127.0.0.1:8390"@)),
                (
                    "UNIDPP_PROJECTOR_PASSPORTS_DIR"@,
                    SourceView::Fixed(path::below(dir, "passports"@)),
                ),
            ],
        },
        SpecView {
            name: "gateway"@,
            repo: "unidpp-gateway"@,
            port: 8395,
            env: seq![("UNIDPP_GATEWAY"@, SourceView::Rendered("gateway"@))],
        },
        SpecView {
            name: "archive"@,
            repo: "unidpp-archive"@,
            port: 8396,
            env: seq![
                ("UNIDPP_ARCHIVE_BIND"@, SourceView::Fixed("127.0.0.1:8396"@)),
                ("UNIDPP_ARCHIVE_STATE_FILE"@, SourceView::RunJournal("archive-journal.jsonl"@)),
                (
                    "UNIDPP_ARCHIVE_SNAPSHOT_DIR"@,
                    SourceView::Fixed(path::below(pilot.run(), "archive-snapshots"@)),
                ),
                ("UNIDPP_LOG_URL"@, SourceView::Fixed("http://127.0.0.1:8392"@)),
            ],
        },
        SpecView {
            name: "hub"@,
            repo: "unidpp-hub"@,
            port: 8397,
            env: seq![("UNIDPP_HUB"@, SourceView::Rendered("hub"@))],
        },
        SpecView {
            name: "console"@,
            repo: "unidpp-console"@,
            port: 8389,
            env: seq![
                ("UNIDPP_CONSOLE_BIND"@, SourceView::Fixed("127.0.0.1:8389"@)),
                ("UNIDPP_CONSOLE_MANIFEST"@, SourceView::Fixed(pilot.operator_manifest())),
            ],
        },
        SpecView {
            name: "jp-registry"@,
            repo: "unidpp-registry"@,
            port: 8399,
            env: seq![
                ("UNIDPP_REGISTRY_BIND"@, SourceView::Fixed("127.0.0.1:8399"@)),
                (
                    "UNIDPP_REGISTRY_STATE_FILE"@,
                    SourceView::Fixed(path::below(dir, "jp-registry-journal.jsonl"@)),
                ),
            ],
        },
    ]
}

/// Where the log has its external timestamps from, if nothing else is set.
pub open spec fn timestamps(tsa: Option<&str>) -> Seq<char> {
    match tsa {
        Some(url) => url@,
        None => "http://timestamp.digicert.com"@,
    }
}

fn first_rows(pilot: &Pilot, tsa: Option<&str>) -> (r: Vec<ServiceSpec>)
    ensures
        rows(r@) == service_table(*pilot, timestamps(tsa)).take(5),
{
    let dir = pilot.dir.as_str();
    let url: &str = match tsa {
        Some(u) => u,
        None => "http://timestamp.digicert.com",
    };
    let mut table: Vec<ServiceSpec> = Vec::new();
    assert(rows(table@) =~= Seq::<SpecView>::empty());
    push_row(
        &mut table,
        row("registry", "unidpp-registry", 8390).fixed(
            "UNIDPP_REGISTRY_BIND",
            "127.0.0.1:8390",
        ).fixed(
            "UNIDPP_REGISTRY_STATE_FILE",
            join(dir, "registry-journal.jsonl").as_str(),
        ),
    );
    push_row(
        &mut table,
        row("trust", "unidpp-trust", 8391).fixed("UNIDPP_TRUST_BIND", "127.0.0.1:8391").journal(
            "UNIDPP_TRUST_STATE_FILE",
            "trust-journal.jsonl",
        ),
    );
    push_row(
        &mut table,
        row("log", "unidpp-log", 8392).fixed("UNIDPP_LOG_BIND", "127.0.0.1:8392").fixed(
            "UNIDPP_LOG_ID",
            "unidpp-pilot-log-1",
        ).journal("UNIDPP_LOG_STATE_FILE", "log-journal.jsonl").fixed(
            "UNIDPP_LOG_EXTERNAL_TSA_URL",
            url,
        ),
    );
    push_row(
        &mut table,
        row("issuer", "unidpp-issuer", 8393).fixed(
            "UNIDPP_ISSUER_BIND",
            "127.0.0.1:8393",
        ).journal("UNIDPP_ISSUER_STATE_FILE", "issuer-journal.jsonl").fixed(
            "UNIDPP_ISSUER_REGISTRY_URL",
            "http://127.0.0.1:8390",
        ),
    );
    push_row(
        &mut table,
        row("projector", "unidpp-projector", 8394).fixed(
            "UNIDPP_PROJECTOR_BIND",
            "127.0.0.1:8394",
        ).fixed("UNIDPP_REGISTRY_URL", "http://127.0.0.1:8390").fixed(
            "UNIDPP_PROJECTOR_PASSPORTS_DIR",
            join(dir, "passports").as_str(),
        ),
    );
    proof {
        let full = service_table(*pilot, timestamps(tsa));
        let got = rows(table@);
        assert(got[0].env =~= full[0].env);
        assert(got[1].env =~= full[1].env);
        assert(got[2].env =~= full[2].env);
        assert(got[3].env =~= full[3].env);
        assert(got[4].env =~= full[4].env);
        assert(got =~= full.take(5));
    }
    table
}

/// The service table of a pilot.
pub fn services(pilot: &Pilot, tsa: Option<&str>) -> (r: Vec<ServiceSpec>)
    ensures
        rows(r@) == service_table(*pilot, timestamps(tsa)),
{
    let dir = pilot.dir.as_str();
    let run = pilot.run_dir();
    let mut table = first_rows(pilot, tsa);
    push_row(
        &mut table,
        row("gateway", "unidpp-gateway", 8395).rendered("UNIDPP_GATEWAY", "gateway"),
    );
    push_row(
        &mut table,
        row("archive", "unidpp-archive", 8396).fixed(
            "UNIDPP_ARCHIVE_BIND",
            "127.0.0.1:8396",
        ).journal("UNIDPP_ARCHIVE_STATE_FILE", "archive-journal.jsonl").fixed(
            "UNIDPP_ARCHIVE_SNAPSHOT_DIR",
            join(run.as_str(), "archive-snapshots").as_str(),
        ).fixed("UNIDPP_LOG_URL", "http://127.0.0.1:8392"),
    );
    push_row(&mut table, row("hub", "unidpp-hub", 8397).rendered("UNIDPP_HUB", "hub"));
    push_row(
        &mut table,
        row("console", "unidpp-console", 8389).fixed(
            "UNIDPP_CONSOLE_BIND",
            "127.0.0.1:8389",
        ).fixed("UNIDPP_CONSOLE_MANIFEST", pilot.manifest().as_str()),
    );
    push_row(
        &mut table,
        row("jp-registry", "unidpp-registry", 8399).fixed(
            "UNIDPP_REGISTRY_BIND",
            "127.0.0.1:8399",
        ).fixed(
            "UNIDPP_REGISTRY_STATE_FILE",
            join(dir, "jp-registry-journal.jsonl").as_str(),
        ),
    );
    proof {
        let full = service_table(*pilot, timestamps(tsa));
        let got = rows(table@);
        assert(got[5].env =~= full[5].env);
        assert(got[6].env =~= full[6].env);
        assert(got[7].env =~= full[7].env);
        assert(got[8].env =~= full[8].env);
        assert(got[9].env =~= full[9].env);
        assert forall|i: int| 0 <= i < 5 implies got[i] == #[trigger] full[i] by {
            assert(full.take(5)[i] == full[i]);
        }
        assert(got =~= full);
    }
    table
}

// ---------------------------------------------------------------------------
// The environment of a service.
// ---------------------------------------------------------------------------

/// The rendered environment of a manifest service.
pub struct Rendered {
    pub service: String,
    pub text: String,
}

/// What is rendered for a service, nothing where it is not among them.
pub open spec fn rendered_text(rendered: Seq<Rendered>, service: Seq<char>) -> Seq<char>
    decreases rendered.len(),
{
    if rendered.len() == 0 {
        Seq::empty()
    } else if rendered.last().service@ == service {
        rendered.last().text@
    } else {
        rendered_text(rendered.drop_last(), service)
    }
}

/// What one variable of a row contributes to the environment.
pub open spec fn contribution(
    pilot: Pilot,
    name: Seq<char>,
    source: SourceView,
    rendered: Seq<Rendered>,
) -> Seq<(Seq<char>, Seq<char>)> {
    match source {
        SourceView::Fixed(value) => seq![(name, value)],
        SourceView::RunJournal(file) => seq![(name, path::below(pilot.run(), file))],
        SourceView::Rendered(service) => environment::environment(
            rendered_text(rendered, service),
        ),
    }
}

/// The environment that a row stands for.
pub open spec fn environment_for(
    pilot: Pilot,
    env: Seq<(Seq<char>, SourceView)>,
    rendered: Seq<Rendered>,
) -> Seq<(Seq<char>, Seq<char>)>
    decreases env.len(),
{
    if env.len() == 0 {
        Seq::empty()
    } else {
        environment_for(pilot, env.drop_last(), rendered) + contribution(
            pilot,
            env.last().0,
            env.last().1,
            rendered,
        )
    }
}

fn find_rendered(rendered: &Vec<Rendered>, service: &str) -> (r: String)
    ensures
        r@ == rendered_text(rendered@, service@),
{
    let mut i: usize = rendered.len();
    assert(rendered@.take(i as int) =~= rendered@);
    while i > 0
        invariant
            i <= rendered.len(),
            rendered_text(rendered@.take(i as int), service@) == rendered_text(
                rendered@,
                service@,
            ),
        decreases i,
    {
        assert(rendered@.take(i as int).drop_last() =~= rendered@.take(i - 1));
        i -= 1;
        if same_text(rendered[i].service.as_str(), service) {
            return rendered[i].text.clone();
        }
    }
    String::new()
}

/// The environment that a service is launched with: the manifest carries the
/// policy of a rendered service, whose environment joins wholesale.
pub fn service_environment(pilot: &Pilot, spec: &ServiceSpec, rendered: &Vec<Rendered>) -> (r: Vec<
    (String, String),
>)
    ensures
        environment::pair_views(r@) == environment_for(*pilot, spec@.env, rendered@),
{
    let ghost all = spec@.env;
    let mut out: Vec<(String, String)> = Vec::new();
    let mut i: usize = 0;
    assert(all.take(0) =~= Seq::<(Seq<char>, SourceView)>::empty());
    assert(environment::pair_views(out@) =~= Seq::<(Seq<char>, Seq<char>)>::empty());
    while i < spec.env.len()
        invariant
            i <= spec.env.len(),
            all == source_views(spec.env@),
            environment::pair_views(out@) == environment_for(
                *pilot,
                all.take(i as int),
                rendered@,
            ),
        decreases spec.env.len() - i,
    {
        let name = spec.env[i].0.as_str();
        let ghost before = environment::pair_views(out@);
        assert(all.take(i + 1).drop_last() =~= all.take(i as int));
        assert(all.take(i + 1).last() == all[i as int]);
        match &spec.env[i].1 {
            EnvSource::Fixed(value) => {
                push_pair(&mut out, name, value.as_str());
                assert(environment::pair_views(out@) =~= before + seq![(name@, value@)]);
            },
            EnvSource::RunJournal(file) => {
                let journal = join(pilot.run_dir().as_str(), file.as_str());
                push_pair(&mut out, name, journal.as_str());
                assert(environment::pair_views(out@) =~= before + seq![(name@, journal@)]);
            },
            EnvSource::Rendered(service) => {
                let text = find_rendered(rendered, service.as_str());
                let pairs = environment_of(text.as_str());
                push_pairs(&mut out, &pairs);
            },
        }
        i += 1;
    }
    assert(all.take(i as int) =~= all);
    out
}

/// The manifest services whose environments a row needs rendered, in the
/// order in which it names them.
pub open spec fn to_render(env: Seq<(Seq<char>, SourceView)>) -> Seq<Seq<char>>
    decreases env.len(),
{
    if env.len() == 0 {
        Seq::empty()
    } else {
        match env.last().1 {
            SourceView::Rendered(service) => to_render(env.drop_last()).push(service),
            _ => to_render(env.drop_last()),
        }
    }
}

/// The manifest services whose environments a row needs rendered, in the
/// order in which it names them.
pub fn rendered_services(spec: &ServiceSpec) -> (r: Vec<String>)
    ensures
        text::views(r@) == to_render(spec@.env),
{
    let ghost all = source_views(spec.env@);
    let mut out: Vec<String> = Vec::new();
    let mut i: usize = 0;
    assert(all.take(0) =~= Seq::<(Seq<char>, SourceView)>::empty());
    assert(text::views(out@) =~= Seq::<Seq<char>>::empty());
    while i < spec.env.len()
        invariant
            i <= spec.env.len(),
            all == source_views(spec.env@),
            text::views(out@) == to_render(all.take(i as int)),
        decreases spec.env.len() - i,
    {
        let ghost before = text::views(out@);
        assert(all.take(i + 1).drop_last() =~= all.take(i as int));
        assert(all.take(i + 1).last() == all[i as int]);
        if let EnvSource::Rendered(service) = &spec.env[i].1 {
            out.push(service.clone());
            assert(text::views(out@) =~= before.push(service@));
        }
        i += 1;
    }
    assert(all.take(i as int) =~= all);
    out
}

/// No two services share a port or a name, so no two share a pid file or a
/// log.
pub proof fn law_services_are_apart(pilot: Pilot, tsa: Seq<char>, i: int, j: int)
    requires
        0 <= i < j < service_table(pilot, tsa).len(),
    ensures
        service_table(pilot, tsa)[i].port != service_table(pilot, tsa)[j].port,
        service_table(pilot, tsa)[i].name != service_table(pilot, tsa)[j].name,
{
    reveal_strlit("registry");
    reveal_strlit("trust");
    reveal_strlit("log");
    reveal_strlit("issuer");
    reveal_strlit("projector");
    reveal_strlit("gateway");
    reveal_strlit("archive");
    reveal_strlit("hub");
    reveal_strlit("console");
    reveal_strlit("jp-registry");
    let t = service_table(pilot, tsa);
    assert(t[0].name.len() == 8 && t[0].name[0] == 'r');
    assert(t[1].name.len() == 5);
    assert(t[2].name.len() == 3 && t[2].name[0] == 'l');
    assert(t[3].name.len() == 6);
    assert(t[4].name.len() == 9);
    assert(t[5].name.len() == 7 && t[5].name[0] == 'g');
    assert(t[6].name.len() == 7 && t[6].name[0] == 'a');
    assert(t[7].name.len() == 3 && t[7].name[0] == 'h');
    assert(t[8].name.len() == 7 && t[8].name[0] == 'c');
    assert(t[9].name.len() == 11);
}

// ---------------------------------------------------------------------------
// What holds of the table.
// ---------------------------------------------------------------------------

/// The variable names where a service keeps its state.
pub open spec fn names_a_state_file(variable: Seq<char>) -> bool {
    text::ends_with(variable, "_STATE_FILE"@)
}

/// What stands before a relative path below a directory.
spec fn stem(dir: Seq<char>) -> Seq<char> {
    if dir.len() == 0 || text::ends_with(dir, "/"@) {
        dir
    } else {
        dir + "/"@
    }
}

/// Where the service at a place of the table keeps its state, below the
/// directory of the pilot.
spec fn state_of(i: int) -> Seq<char> {
    if i == 0 {
        "registry-journal.jsonl"@
    } else if i == 1 {
        "run/trust-journal.jsonl"@
    } else if i == 2 {
        "run/log-journal.jsonl"@
    } else if i == 3 {
        "run/issuer-journal.jsonl"@
    } else if i == 6 {
        "run/archive-journal.jsonl"@
    } else {
        "jp-registry-journal.jsonl"@
    }
}

proof fn lemma_below_dir(dir: Seq<char>, file: Seq<char>)
    requires
        file.len() > 0,
        file[0] != '/',
    ensures
        path::below(dir, file) == stem(dir) + file,
        path::below(path::below(dir, "run"@), file) == stem(dir) + ("run/"@ + file),
{
    reveal_strlit("/");
    reveal_strlit("run");
    reveal_strlit("run/");
    assert(!text::starts_with(file, "/"@)) by {
        if text::starts_with(file, "/"@) {
            assert(file.take(1)[0] == '/');
        }
    }
    assert(!text::starts_with("run"@, "/"@)) by {
        if text::starts_with("run"@, "/"@) {
            assert("run"@.take(1)[0] == '/');
        }
    }
    let run = path::below(dir, "run"@);
    assert(run == stem(dir) + "run"@);
    assert(run.last() == 'n');
    assert(!text::ends_with(run, "/"@)) by {
        if text::ends_with(run, "/"@) {
            assert(run.skip(run.len() - 1)[0] == '/');
        }
    }
    assert(run + "/"@ + file =~= stem(dir) + ("run/"@ + file));
}

proof fn lemma_variables()
    ensures
        names_a_state_file("UNIDPP_REGISTRY_STATE_FILE"@),
        names_a_state_file("UNIDPP_TRUST_STATE_FILE"@),
        names_a_state_file("UNIDPP_LOG_STATE_FILE"@),
        names_a_state_file("UNIDPP_ISSUER_STATE_FILE"@),
        names_a_state_file("UNIDPP_ARCHIVE_STATE_FILE"@),
        !names_a_state_file("UNIDPP_REGISTRY_BIND"@),
        !names_a_state_file("UNIDPP_TRUST_BIND"@),
        !names_a_state_file("UNIDPP_LOG_BIND"@),
        !names_a_state_file("UNIDPP_LOG_ID"@),
        !names_a_state_file("UNIDPP_LOG_EXTERNAL_TSA_URL"@),
        !names_a_state_file("UNIDPP_ISSUER_BIND"@),
        !names_a_state_file("UNIDPP_ISSUER_REGISTRY_URL"@),
        !names_a_state_file("UNIDPP_PROJECTOR_BIND"@),
        !names_a_state_file("UNIDPP_REGISTRY_URL"@),
        !names_a_state_file("UNIDPP_PROJECTOR_PASSPORTS_DIR"@),
        !names_a_state_file("UNIDPP_ARCHIVE_BIND"@),
        !names_a_state_file("UNIDPP_ARCHIVE_SNAPSHOT_DIR"@),
        !names_a_state_file("UNIDPP_LOG_URL"@),
        !names_a_state_file("UNIDPP_CONSOLE_BIND"@),
        !names_a_state_file("UNIDPP_CONSOLE_MANIFEST"@),
{
    reveal_strlit("_STATE_FILE");
    reveal_strlit("UNIDPP_REGISTRY_STATE_FILE");
    reveal_strlit("UNIDPP_TRUST_STATE_FILE");
    reveal_strlit("UNIDPP_LOG_STATE_FILE");
    reveal_strlit("UNIDPP_ISSUER_STATE_FILE");
    reveal_strlit("UNIDPP_ARCHIVE_STATE_FILE");
    let end = "_STATE_FILE"@;
    let a = "UNIDPP_REGISTRY_STATE_FILE"@;
    assert(a.skip(a.len() - end.len()) =~= end);
    let b = "UNIDPP_TRUST_STATE_FILE"@;
    assert(b.skip(b.len() - end.len()) =~= end);
    let c = "UNIDPP_LOG_STATE_FILE"@;
    assert(c.skip(c.len() - end.len()) =~= end);
    let d = "UNIDPP_ISSUER_STATE_FILE"@;
    assert(d.skip(d.len() - end.len()) =~= end);
    let e = "UNIDPP_ARCHIVE_STATE_FILE"@;
    assert(e.skip(e.len() - end.len()) =~= end);
    reveal_strlit("UNIDPP_REGISTRY_BIND");
    reveal_strlit("UNIDPP_TRUST_BIND");
    reveal_strlit("UNIDPP_LOG_BIND");
    reveal_strlit("UNIDPP_LOG_ID");
    reveal_strlit("UNIDPP_LOG_EXTERNAL_TSA_URL");
    reveal_strlit("UNIDPP_ISSUER_BIND");
    reveal_strlit("UNIDPP_ISSUER_REGISTRY_URL");
    reveal_strlit("UNIDPP_PROJECTOR_BIND");
    reveal_strlit("UNIDPP_REGISTRY_URL");
    reveal_strlit("UNIDPP_PROJECTOR_PASSPORTS_DIR");
    reveal_strlit("UNIDPP_ARCHIVE_BIND");
    reveal_strlit("UNIDPP_ARCHIVE_SNAPSHOT_DIR");
    reveal_strlit("UNIDPP_LOG_URL");
    reveal_strlit("UNIDPP_CONSOLE_BIND");
    reveal_strlit("UNIDPP_CONSOLE_MANIFEST");
    lemma_other_end("UNIDPP_REGISTRY_BIND"@);
    lemma_other_end("UNIDPP_TRUST_BIND"@);
    lemma_other_end("UNIDPP_LOG_BIND"@);
    lemma_other_end("UNIDPP_LOG_ID"@);
    lemma_other_end("UNIDPP_LOG_EXTERNAL_TSA_URL"@);
    lemma_other_end("UNIDPP_ISSUER_BIND"@);
    lemma_other_end("UNIDPP_ISSUER_REGISTRY_URL"@);
    lemma_other_end("UNIDPP_PROJECTOR_BIND"@);
    lemma_other_end("UNIDPP_REGISTRY_URL"@);
    lemma_other_end("UNIDPP_PROJECTOR_PASSPORTS_DIR"@);
    lemma_other_end("UNIDPP_ARCHIVE_BIND"@);
    lemma_other_end("UNIDPP_ARCHIVE_SNAPSHOT_DIR"@);
    lemma_other_end("UNIDPP_LOG_URL"@);
    lemma_other_end("UNIDPP_CONSOLE_BIND"@);
    lemma_other_end("UNIDPP_CONSOLE_MANIFEST"@);
}

proof fn lemma_other_end(variable: Seq<char>)
    requires
        variable.len() > 0,
        variable.last() != 'E',
    ensures
        !names_a_state_file(variable),
{
    reveal_strlit("_STATE_FILE");
    let end = "_STATE_FILE"@;
    if text::ends_with(variable, end) {
        assert(variable.skip(variable.len() - end.len())[10] == end[10]);
    }
}

proof fn lemma_state_files()
    ensures
        forall|i: int, j: int| i != j && keeps_state(i) && keeps_state(j) ==> #[trigger] state_of(
            i,
        ) != #[trigger] state_of(j),
{
    reveal_strlit("registry-journal.jsonl");
    reveal_strlit("run/trust-journal.jsonl");
    reveal_strlit("run/log-journal.jsonl");
    reveal_strlit("run/issuer-journal.jsonl");
    reveal_strlit("run/archive-journal.jsonl");
    reveal_strlit("jp-registry-journal.jsonl");
    assert(state_of(0).len() == 22);
    assert(state_of(1).len() == 23);
    assert(state_of(2).len() == 21);
    assert(state_of(3).len() == 24);
    assert(state_of(6).len() == 25 && state_of(6)[0] == 'r');
    assert(state_of(9).len() == 25 && state_of(9)[0] == 'j');
}

/// The services of the table that keep state.
spec fn keeps_state(i: int) -> bool {
    i == 0 || i == 1 || i == 2 || i == 3 || i == 6 || i == 9
}

/// What a variable that is not rendered gives.
spec fn value_of(pilot: Pilot, source: SourceView) -> Seq<char> {
    match source {
        SourceView::Fixed(value) => value,
        SourceView::RunJournal(file) => path::below(pilot.run(), file),
        SourceView::Rendered(service) => service,
    }
}

/// Without rendered services an environment is the row's variables with their
/// values.
proof fn lemma_plain_environment(
    pilot: Pilot,
    env: Seq<(Seq<char>, SourceView)>,
    rendered: Seq<Rendered>,
)
    requires
        to_render(env).len() == 0,
    ensures
        environment_for(pilot, env, rendered).len() == env.len(),
        forall|k: int|
            0 <= k < env.len() ==> #[trigger] environment_for(pilot, env, rendered)[k] == (
                env[k].0,
                value_of(pilot, env[k].1),
            ),
    decreases env.len(),
{
    if env.len() > 0 {
        lemma_plain_environment(pilot, env.drop_last(), rendered);
    }
}

proof fn lemma_state_at(pilot: Pilot, tsa: Seq<char>, i: int, k: int)
    requires
        0 <= i < service_table(pilot, tsa).len(),
        0 <= k < service_table(pilot, tsa)[i].env.len(),
        names_a_state_file(service_table(pilot, tsa)[i].env[k].0),
        to_render(service_table(pilot, tsa)[i].env).len() == 0,
    ensures
        keeps_state(i),
        value_of(pilot, service_table(pilot, tsa)[i].env[k].1) == stem(pilot.dir@) + state_of(i),
{
    lemma_variables();
    let t = service_table(pilot, tsa);
    reveal_with_fuel(to_render, 3);
    assert(t[5].env.drop_last() =~= Seq::empty());
    assert(t[7].env.drop_last() =~= Seq::empty());
    reveal_strlit("registry-journal.jsonl");
    reveal_strlit("trust-journal.jsonl");
    reveal_strlit("log-journal.jsonl");
    reveal_strlit("issuer-journal.jsonl");
    reveal_strlit("archive-journal.jsonl");
    reveal_strlit("jp-registry-journal.jsonl");
    reveal_strlit("run/");
    reveal_strlit("run/trust-journal.jsonl");
    reveal_strlit("run/log-journal.jsonl");
    reveal_strlit("run/issuer-journal.jsonl");
    reveal_strlit("run/archive-journal.jsonl");
    lemma_below_dir(pilot.dir@, "registry-journal.jsonl"@);
    lemma_below_dir(pilot.dir@, "jp-registry-journal.jsonl"@);
    lemma_below_dir(pilot.dir@, "trust-journal.jsonl"@);
    lemma_below_dir(pilot.dir@, "log-journal.jsonl"@);
    lemma_below_dir(pilot.dir@, "issuer-journal.jsonl"@);
    lemma_below_dir(pilot.dir@, "archive-journal.jsonl"@);
    assert("run/"@ + "trust-journal.jsonl"@ =~= "run/trust-journal.jsonl"@);
    assert("run/"@ + "log-journal.jsonl"@ =~= "run/log-journal.jsonl"@);
    assert("run/"@ + "issuer-journal.jsonl"@ =~= "run/issuer-journal.jsonl"@);
    assert("run/"@ + "archive-journal.jsonl"@ =~= "run/archive-journal.jsonl"@);
}

/// No two services share a state file: whatever two of them are launched with,
/// the variables that name state files have different values. The services
/// whose environment the manifest carries take theirs from it.
pub proof fn law_no_state_file_is_shared(
    pilot: Pilot,
    tsa: Seq<char>,
    rendered: Seq<Rendered>,
    i: int,
    j: int,
    k: int,
    m: int,
)
    requires
        0 <= i < service_table(pilot, tsa).len(),
        0 <= j < service_table(pilot, tsa).len(),
        i != j,
        to_render(service_table(pilot, tsa)[i].env).len() == 0,
        to_render(service_table(pilot, tsa)[j].env).len() == 0,
        0 <= k < environment_for(pilot, service_table(pilot, tsa)[i].env, rendered).len(),
        0 <= m < environment_for(pilot, service_table(pilot, tsa)[j].env, rendered).len(),
        text::ends_with(
            environment_for(pilot, service_table(pilot, tsa)[i].env, rendered)[k].0,
            "_STATE_FILE"@,
        ),
        text::ends_with(
            environment_for(pilot, service_table(pilot, tsa)[j].env, rendered)[m].0,
            "_STATE_FILE"@,
        ),
    ensures
        environment_for(pilot, service_table(pilot, tsa)[i].env, rendered)[k].1
            != environment_for(pilot, service_table(pilot, tsa)[j].env, rendered)[m].1,
{
    let t = service_table(pilot, tsa);
    lemma_plain_environment(pilot, t[i].env, rendered);
    lemma_plain_environment(pilot, t[j].env, rendered);
    lemma_state_at(pilot, tsa, i, k);
    lemma_state_at(pilot, tsa, j, m);
    lemma_state_files();
    let s = stem(pilot.dir@);
    assert((s + state_of(i)).skip(s.len() as int) =~= state_of(i));
    assert((s + state_of(j)).skip(s.len() as int) =~= state_of(j));
}

/// The names of the services, and how they differ.
pub proof fn lemma_names(pilot: Pilot, tsa: Seq<char>)
    ensures
        forall|i: int|
            #![trigger service_table(pilot, tsa)[i]]
            0 <= i < service_table(pilot, tsa).len() ==> {
                let name = service_table(pilot, tsa)[i].name;
                &&& name == "registry"@ <==> i == 0
                &&& name == "trust"@ <==> i == 1
                &&& name == "log"@ <==> i == 2
                &&& name == "issuer"@ <==> i == 3
                &&& name == "projector"@ <==> i == 4
                &&& name == "gateway"@ <==> i == 5
                &&& name == "archive"@ <==> i == 6
                &&& name == "hub"@ <==> i == 7
                &&& name == "console"@ <==> i == 8
                &&& name == "jp-registry"@ <==> i == 9
            },
{
    reveal_strlit("registry");
    reveal_strlit("trust");
    reveal_strlit("log");
    reveal_strlit("issuer");
    reveal_strlit("projector");
    reveal_strlit("gateway");
    reveal_strlit("archive");
    reveal_strlit("hub");
    reveal_strlit("console");
    reveal_strlit("jp-registry");
    assert("registry"@.len() == 8);
    assert("trust"@.len() == 5);
    assert("log"@.len() == 3 && "log"@[0] == 'l');
    assert("issuer"@.len() == 6);
    assert("projector"@.len() == 9);
    assert("gateway"@.len() == 7 && "gateway"@[0] == 'g');
    assert("archive"@.len() == 7 && "archive"@[0] == 'a');
    assert("hub"@.len() == 3 && "hub"@[0] == 'h');
    assert("console"@.len() == 7 && "console"@[0] == 'c');
    assert("jp-registry"@.len() == 11);
}

proof fn lemma_plain_rows(pilot: Pilot, tsa: Seq<char>, i: int)
    requires
        0 <= i < service_table(pilot, tsa).len(),
    ensures
        to_render(service_table(pilot, tsa)[i].env).len() == 0 <==> i != 5 && i != 7,
{
    let env = service_table(pilot, tsa)[i].env;
    reveal_with_fuel(to_render, 5);
    if i == 5 || i == 7 {
        assert(env.drop_last() =~= Seq::empty());
    } else if env.len() == 2 {
        assert(env.drop_last().drop_last() =~= Seq::empty());
    } else if env.len() == 3 {
        assert(env.drop_last().drop_last().drop_last() =~= Seq::empty());
    } else {
        assert(env.drop_last().drop_last().drop_last().drop_last() =~= Seq::empty());
    }
}

/// The registry and its peer keep their journals at the root of the pilot, and
/// the other services that have one keep it in the run directory; each journal
/// bears the name of its service.
pub proof fn law_journals_bear_the_names_of_their_services(
    pilot: Pilot,
    tsa: Seq<char>,
    rendered: Seq<Rendered>,
    i: int,
)
    requires
        0 <= i < service_table(pilot, tsa).len(),
    ensures
        ({
            let row = service_table(pilot, tsa)[i];
            let env = environment_for(pilot, row.env, rendered);
            let run = path::below(pilot.dir@, "run"@);
            &&& row.name == "registry"@ ==> env.contains(
                ("UNIDPP_REGISTRY_STATE_FILE"@, path::below(pilot.dir@, "registry-journal.jsonl"@)),
            )
            &&& row.name == "jp-registry"@ ==> env.contains(
                (
                    "UNIDPP_REGISTRY_STATE_FILE"@,
                    path::below(pilot.dir@, "jp-registry-journal.jsonl"@),
                ),
            )
            &&& row.name == "trust"@ ==> env.contains(
                ("UNIDPP_TRUST_STATE_FILE"@, path::below(run, row.name + "-journal.jsonl"@)),
            )
            &&& row.name == "log"@ ==> env.contains(
                ("UNIDPP_LOG_STATE_FILE"@, path::below(run, row.name + "-journal.jsonl"@)),
            )
            &&& row.name == "issuer"@ ==> env.contains(
                ("UNIDPP_ISSUER_STATE_FILE"@, path::below(run, row.name + "-journal.jsonl"@)),
            )
            &&& row.name == "archive"@ ==> env.contains(
                ("UNIDPP_ARCHIVE_STATE_FILE"@, path::below(run, row.name + "-journal.jsonl"@)),
            )
        }),
{
    lemma_names(pilot, tsa);
    let row = service_table(pilot, tsa)[i];
    if i != 5 && i != 7 {
        lemma_plain_rows(pilot, tsa, i);
        lemma_plain_environment(pilot, row.env, rendered);
        let env = environment_for(pilot, row.env, rendered);
        reveal_strlit("-journal.jsonl");
        if i == 0 || i == 9 {
            assert(env[1].0 == "UNIDPP_REGISTRY_STATE_FILE"@);
        } else if i == 1 {
            reveal_strlit("trust");
            reveal_strlit("trust-journal.jsonl");
            assert("trust"@ + "-journal.jsonl"@ =~= "trust-journal.jsonl"@);
            assert(env[1].0 == "UNIDPP_TRUST_STATE_FILE"@);
        } else if i == 2 {
            reveal_strlit("log");
            reveal_strlit("log-journal.jsonl");
            assert("log"@ + "-journal.jsonl"@ =~= "log-journal.jsonl"@);
            assert(env[2].0 == "UNIDPP_LOG_STATE_FILE"@);
        } else if i == 3 {
            reveal_strlit("issuer");
            reveal_strlit("issuer-journal.jsonl");
            assert("issuer"@ + "-journal.jsonl"@ =~= "issuer-journal.jsonl"@);
            assert(env[1].0 == "UNIDPP_ISSUER_STATE_FILE"@);
        } else if i == 6 {
            reveal_strlit("archive");
            reveal_strlit("archive-journal.jsonl");
            assert("archive"@ + "-journal.jsonl"@ =~= "archive-journal.jsonl"@);
            assert(env[1].0 == "UNIDPP_ARCHIVE_STATE_FILE"@);
        }
    }
}

proof fn lemma_ports()
    ensures
        "127.0.0.1:"@ + decimal::decimal(8389) == "127.0.0.1:8389"@,
        "127.0.0.1:"@ + decimal::decimal(8390) == "127.0.0.1:8390"@,
        "127.0.0.1:"@ + decimal::decimal(8391) == "127.0.0.1:8391"@,
        "127.0.0.1:"@ + decimal::decimal(8392) == "127.0.0.1:8392"@,
        "127.0.0.1:"@ + decimal::decimal(8393) == "127.0.0.1:8393"@,
        "127.0.0.1:"@ + decimal::decimal(8394) == "127.0.0.1:8394"@,
        "127.0.0.1:"@ + decimal::decimal(8396) == "127.0.0.1:8396"@,
        "127.0.0.1:"@ + decimal::decimal(8399) == "127.0.0.1:8399"@,
        "http://127.0.0.1:"@ + decimal::decimal(8390) == "http://127.0.0.1:8390"@,
        "http://127.0.0.1:"@ + decimal::decimal(8392) == "http://127.0.0.1:8392"@,
{
    reveal_with_fuel(decimal::decimal, 5);
    reveal_strlit("127.0.0.1:");
    reveal_strlit("http://127.0.0.1:");
    reveal_strlit("127.0.0.1:8389");
    reveal_strlit("127.0.0.1:8390");
    reveal_strlit("127.0.0.1:8391");
    reveal_strlit("127.0.0.1:8392");
    reveal_strlit("127.0.0.1:8393");
    reveal_strlit("127.0.0.1:8394");
    reveal_strlit("127.0.0.1:8396");
    reveal_strlit("127.0.0.1:8399");
    reveal_strlit("http://127.0.0.1:8390");
    reveal_strlit("http://127.0.0.1:8392");
    assert(decimal::decimal(8) =~= seq!['8']);
    assert(decimal::decimal(83) =~= seq!['8', '3']);
    assert(decimal::decimal(838) =~= seq!['8', '3', '8']);
    assert(decimal::decimal(839) =~= seq!['8', '3', '9']);
    assert(decimal::decimal(8389) =~= seq!['8', '3', '8', '9']);
    assert(decimal::decimal(8390) =~= seq!['8', '3', '9', '0']);
    assert(decimal::decimal(8391) =~= seq!['8', '3', '9', '1']);
    assert(decimal::decimal(8392) =~= seq!['8', '3', '9', '2']);
    assert(decimal::decimal(8393) =~= seq!['8', '3', '9', '3']);
    assert(decimal::decimal(8394) =~= seq!['8', '3', '9', '4']);
    assert(decimal::decimal(8396) =~= seq!['8', '3', '9', '6']);
    assert(decimal::decimal(8399) =~= seq!['8', '3', '9', '9']);
    assert("127.0.0.1:"@ + decimal::decimal(8389) =~= "127.0.0.1:8389"@);
    assert("127.0.0.1:"@ + decimal::decimal(8390) =~= "127.0.0.1:8390"@);
    assert("127.0.0.1:"@ + decimal::decimal(8391) =~= "127.0.0.1:8391"@);
    assert("127.0.0.1:"@ + decimal::decimal(8392) =~= "127.0.0.1:8392"@);
    assert("127.0.0.1:"@ + decimal::decimal(8393) =~= "127.0.0.1:8393"@);
    assert("127.0.0.1:"@ + decimal::decimal(8394) =~= "127.0.0.1:8394"@);
    assert("127.0.0.1:"@ + decimal::decimal(8396) =~= "127.0.0.1:8396"@);
    assert("127.0.0.1:"@ + decimal::decimal(8399) =~= "127.0.0.1:8399"@);
    assert("http://127.0.0.1:"@ + decimal::decimal(8390) =~= "http://127.0.0.1:8390"@);
    assert("http://127.0.0.1:"@ + decimal::decimal(8392) =~= "http://127.0.0.1:8392"@);
}

/// A service listens where it is looked for: unless the manifest says where,
/// one of its variables binds it to the loopback port of its row.
pub proof fn law_services_listen_on_their_ports(
    pilot: Pilot,
    tsa: Seq<char>,
    rendered: Seq<Rendered>,
    i: int,
)
    requires
        0 <= i < service_table(pilot, tsa).len(),
        service_table(pilot, tsa)[i].name != "gateway"@,
        service_table(pilot, tsa)[i].name != "hub"@,
    ensures
        ({
            let row = service_table(pilot, tsa)[i];
            let env = environment_for(pilot, row.env, rendered);
            &&& env.len() > 0
            &&& text::starts_with(env[0].0, "UNIDPP_"@)
            &&& text::ends_with(env[0].0, "_BIND"@)
            &&& env[0].1 == "127.0.0.1:"@ + decimal::decimal(row.port)
        }),
{
    lemma_names(pilot, tsa);
    lemma_plain_rows(pilot, tsa, i);
    lemma_ports();
    let row = service_table(pilot, tsa)[i];
    lemma_plain_environment(pilot, row.env, rendered);
    reveal_strlit("UNIDPP_");
    reveal_strlit("_BIND");
    reveal_strlit("UNIDPP_REGISTRY_BIND");
    reveal_strlit("UNIDPP_TRUST_BIND");
    reveal_strlit("UNIDPP_LOG_BIND");
    reveal_strlit("UNIDPP_ISSUER_BIND");
    reveal_strlit("UNIDPP_PROJECTOR_BIND");
    reveal_strlit("UNIDPP_ARCHIVE_BIND");
    reveal_strlit("UNIDPP_CONSOLE_BIND");
    let env = environment_for(pilot, row.env, rendered);
    let v = env[0].0;
    assert(v == row.env[0].0);
    assert(v.take(7) =~= "UNIDPP_"@);
    assert(v.skip(v.len() - 5) =~= "_BIND"@);
}

/// Who leans on another service is told where that one listens: the issuer and
/// the projector have the address of the registry, and the archive has that of
/// the log.
pub proof fn law_addresses_lead_to_their_services(
    pilot: Pilot,
    tsa: Seq<char>,
    rendered: Seq<Rendered>,
    i: int,
    j: int,
)
    requires
        0 <= i < service_table(pilot, tsa).len(),
        0 <= j < service_table(pilot, tsa).len(),
    ensures
        ({
            let row = service_table(pilot, tsa)[i];
            let env = environment_for(pilot, row.env, rendered);
            let other = service_table(pilot, tsa)[j];
            let address = "http://127.0.0.1:"@ + decimal::decimal(other.port);
            &&& row.name == "issuer"@ && other.name == "registry"@ ==> env.contains(
                ("UNIDPP_ISSUER_REGISTRY_URL"@, address),
            )
            &&& row.name == "projector"@ && other.name == "registry"@ ==> env.contains(
                ("UNIDPP_REGISTRY_URL"@, address),
            )
            &&& row.name == "archive"@ && other.name == "log"@ ==> env.contains(
                ("UNIDPP_LOG_URL"@, address),
            )
        }),
{
    lemma_names(pilot, tsa);
    lemma_ports();
    let row = service_table(pilot, tsa)[i];
    if i == 3 || i == 4 || i == 6 {
        lemma_plain_rows(pilot, tsa, i);
        lemma_plain_environment(pilot, row.env, rendered);
        let env = environment_for(pilot, row.env, rendered);
        if i == 3 {
            assert(env[2].0 == "UNIDPP_ISSUER_REGISTRY_URL"@);
        } else if i == 4 {
            assert(env[1].0 == "UNIDPP_REGISTRY_URL"@);
        } else {
            assert(env[3].0 == "UNIDPP_LOG_URL"@);
        }
    }
}

/// What else a service is told: the log its identity and where it has its
/// timestamps from, the projector the directory of the passports, the archive
/// that of its snapshots, and the console the operator manifest.
pub proof fn law_services_find_their_places(
    pilot: Pilot,
    tsa: Seq<char>,
    rendered: Seq<Rendered>,
    i: int,
)
    requires
        0 <= i < service_table(pilot, tsa).len(),
    ensures
        ({
            let row = service_table(pilot, tsa)[i];
            let env = environment_for(pilot, row.env, rendered);
            &&& row.name == "log"@ ==> env.contains(("UNIDPP_LOG_ID"@, "unidpp-pilot-log-1"@))
                && env.contains(("UNIDPP_LOG_EXTERNAL_TSA_URL"@, tsa))
            &&& row.name == "projector"@ ==> env.contains(
                ("UNIDPP_PROJECTOR_PASSPORTS_DIR"@, path::below(pilot.dir@, "passports"@)),
            )
            &&& row.name == "archive"@ ==> env.contains(
                (
                    "UNIDPP_ARCHIVE_SNAPSHOT_DIR"@,
                    path::below(path::below(pilot.dir@, "run"@), "archive-snapshots"@),
                ),
            )
            &&& row.name == "console"@ ==> env.contains(
                (
                    "UNIDPP_CONSOLE_MANIFEST"@,
                    path::below(pilot.dir@, "unidpp-operator.yaml"@),
                ),
            )
        }),
{
    lemma_names(pilot, tsa);
    let row = service_table(pilot, tsa)[i];
    if i == 2 || i == 4 || i == 6 || i == 8 {
        lemma_plain_rows(pilot, tsa, i);
        lemma_plain_environment(pilot, row.env, rendered);
        let env = environment_for(pilot, row.env, rendered);
        if i == 2 {
            assert(env[1].0 == "UNIDPP_LOG_ID"@);
            assert(env[3].0 == "UNIDPP_LOG_EXTERNAL_TSA_URL"@);
        } else if i == 4 {
            assert(env[2].0 == "UNIDPP_PROJECTOR_PASSPORTS_DIR"@);
        } else if i == 6 {
            assert(env[2].0 == "UNIDPP_ARCHIVE_SNAPSHOT_DIR"@);
        } else {
            assert(env[1].0 == "UNIDPP_CONSOLE_MANIFEST"@);
        }
    }
}

/// A service runs the program of the repository that bears its name, the peer
/// of the registry that of the registry; and of the services only the gateway
/// and the hub, which is the relay, have their environment from the manifest,
/// each its own.
pub proof fn law_services_run_their_own_programs(
    pilot: Pilot,
    tsa: Seq<char>,
    rendered: Seq<Rendered>,
    i: int,
)
    requires
        0 <= i < service_table(pilot, tsa).len(),
    ensures
        ({
            let row = service_table(pilot, tsa)[i];
            &&& row.repo == "unidpp-"@ + if row.name == "jp-registry"@ {
                "registry"@
            } else {
                row.name
            }
            &&& row.name == "gateway"@ || row.name == "hub"@ ==> environment_for(
                pilot,
                row.env,
                rendered,
            ) == environment::environment(rendered_text(rendered, row.name))
        }),
{
    lemma_names(pilot, tsa);
    let row = service_table(pilot, tsa)[i];
    reveal_strlit("unidpp-");
    reveal_strlit("registry");
    reveal_strlit("trust");
    reveal_strlit("log");
    reveal_strlit("issuer");
    reveal_strlit("projector");
    reveal_strlit("gateway");
    reveal_strlit("archive");
    reveal_strlit("hub");
    reveal_strlit("console");
    reveal_strlit("unidpp-registry");
    reveal_strlit("unidpp-trust");
    reveal_strlit("unidpp-log");
    reveal_strlit("unidpp-issuer");
    reveal_strlit("unidpp-projector");
    reveal_strlit("unidpp-gateway");
    reveal_strlit("unidpp-archive");
    reveal_strlit("unidpp-hub");
    reveal_strlit("unidpp-console");
    assert("unidpp-"@ + "registry"@ =~= "unidpp-registry"@);
    assert("unidpp-"@ + "trust"@ =~= "unidpp-trust"@);
    assert("unidpp-"@ + "log"@ =~= "unidpp-log"@);
    assert("unidpp-"@ + "issuer"@ =~= "unidpp-issuer"@);
    assert("unidpp-"@ + "projector"@ =~= "unidpp-projector"@);
    assert("unidpp-"@ + "gateway"@ =~= "unidpp-gateway"@);
    assert("unidpp-"@ + "archive"@ =~= "unidpp-archive"@);
    assert("unidpp-"@ + "hub"@ =~= "unidpp-hub"@);
    assert("unidpp-"@ + "console"@ =~= "unidpp-console"@);
    if i == 5 || i == 7 {
        reveal_with_fuel(environment_for, 2);
        assert(row.env.drop_last() =~= Seq::empty());
        assert(environment_for(pilot, row.env, rendered) =~= environment::environment(
            rendered_text(rendered, row.name),
        ));
    }
}

/// A deployment has a file: at its root, or by that name in its run directory.
pub open spec fn has_file(files: Seq<Seq<char>>, run: Seq<TreeView>, rel: Seq<char>) -> bool {
    ||| !rel.contains('/') && files.contains(rel)
    ||| exists|name: Seq<char>| #[trigger]
        listing::leads_to(run, name, name) && rel == "run/"@ + name
}

proof fn lemma_kept(
    files: Seq<Seq<char>>,
    run: Seq<TreeView>,
    tenants: Seq<TreeView>,
    seed: Seq<TreeView>,
    i: int,
)
    requires
        keeps_state(i),
    ensures
        state_of(i).len() > 0,
        state_of(i)[0] != '/',
        recover::live_state().contains(restore::top(state_of(i))),
        has_file(files, run, state_of(i)) ==> backup::payload_of(
            files,
            run,
            tenants,
            seed,
        ).contains(state_of(i)),
{
    let rel = state_of(i);
    reveal_strlit("registry-journal.jsonl");
    reveal_strlit("run/trust-journal.jsonl");
    reveal_strlit("run/log-journal.jsonl");
    reveal_strlit("run/issuer-journal.jsonl");
    reveal_strlit("run/archive-journal.jsonl");
    reveal_strlit("jp-registry-journal.jsonl");
    reveal_strlit("run/");
    reveal_strlit("run");
    reveal_strlit("-journal.jsonl");
    recover::law_live_state_is_named(restore::top(rel));
    backup::law_a_backup_holds_the_root(files, run, tenants, seed);
    if i == 0 || i == 9 {
        text::lemma_lead_is(rel, Class::Except('/'), rel.len() as int);
        assert(restore::top(rel) =~= rel);
        assert(rel[1] != 'u');
        assert forall|name: Seq<char>| rel == "run/"@ + name implies false by {
            assert(("run/"@ + name)[1] == 'u');
        }
    } else {
        assert(rel.take(3) =~= "run"@);
        assert(rel[3] == '/');
        recover::lemma_top(rel, "run"@);
        if has_file(files, run, rel) {
            let name = choose|name: Seq<char>| #[trigger]
                listing::leads_to(run, name, name) && rel == "run/"@ + name;
            let end = "-journal.jsonl"@;
            assert(name =~= rel.skip(4));
            assert(name.skip(name.len() - end.len()) =~= end);
            backup::law_a_backup_holds_the_state(files, run, tenants, seed, name, name);
        }
    }
}

/// No state is left out: whatever file a service keeps its state in is below
/// the directory of the pilot, where a backup holds it if it is there and a
/// recovery sets it aside.
pub proof fn law_state_files_are_backed_up(
    pilot: Pilot,
    tsa: Seq<char>,
    rendered: Seq<Rendered>,
    i: int,
    k: int,
    files: Seq<Seq<char>>,
    run: Seq<TreeView>,
    tenants: Seq<TreeView>,
    seed: Seq<TreeView>,
)
    requires
        0 <= i < service_table(pilot, tsa).len(),
        to_render(service_table(pilot, tsa)[i].env).len() == 0,
        0 <= k < environment_for(pilot, service_table(pilot, tsa)[i].env, rendered).len(),
        text::ends_with(
            environment_for(pilot, service_table(pilot, tsa)[i].env, rendered)[k].0,
            "_STATE_FILE"@,
        ),
    ensures
        exists|rel: Seq<char>|
            {
                &&& environment_for(pilot, service_table(pilot, tsa)[i].env, rendered)[k].1
                    == #[trigger] path::below(pilot.dir@, rel)
                &&& has_file(files, run, rel) ==> backup::payload_of(
                    files,
                    run,
                    tenants,
                    seed,
                ).contains(rel)
                &&& recover::live_state().contains(restore::top(rel))
            },
{
    let t = service_table(pilot, tsa);
    lemma_plain_environment(pilot, t[i].env, rendered);
    lemma_state_at(pilot, tsa, i, k);
    lemma_kept(files, run, tenants, seed, i);
    lemma_below_dir(pilot.dir@, state_of(i));
    assert(path::below(pilot.dir@, state_of(i)) == stem(pilot.dir@) + state_of(i));
}

} // verus!
