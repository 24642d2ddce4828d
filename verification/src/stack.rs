//! The pilot's orchestration: adopt or start the services and the tunnels,
//! stop them, report on them, and seed the JP peer. Every command is
//! idempotent: a healthy listener of the right service is adopted, a foreign
//! listener is named and refused.

use vstd::prelude::*;
use vstd::string::*;

use crate::decimal;
use crate::decimal::{decimal_of, parsed_number};
use crate::environment;
use crate::environment::{environment_of, push_pair};
use crate::http;
use crate::http::{document_of, HttpText};
use crate::json;
use crate::json::{parse_json, JsonView};
use crate::path;
use crate::path::join;
use crate::plan::{Ending, EndingView, Fault, FaultView, Outcome, Plan, Step, StepView};
use crate::recover;
use crate::recover::pid_in;
use crate::runner::pid_path;
use crate::services;
use crate::services::{Pilot, ServiceSpec, SpecView};
use crate::text;
use crate::text::{
    cat2, cat3, cat4, cat5, chars_of, pieces, same_text, text_from, text_of, trimmed,
};
use crate::walkthrough;
use crate::walkthrough::Drawer;

verus! {

// ---------------------------------------------------------------------------
// Who listens.
// ---------------------------------------------------------------------------

/// The answer to `/healthz` is that of a healthy listener.
pub open spec fn is_healthy(reply: Option<HttpText>) -> bool {
    reply matches Some(r) && r.status == 200
}

/// The answer to `/healthz` is that of a healthy listener.
pub fn healthy(reply: &Option<HttpText>) -> (r: bool)
    ensures
        r == is_healthy(*reply),
{
    match reply {
        Some(answer) => answer.status == 200,
        None => false,
    }
}

/// The service that a discovery document names.
pub open spec fn named_service(reply: Option<HttpText>) -> Option<Seq<char>> {
    match http::document(reply) {
        Some(doc) => match json::get(doc, "service"@) {
            Some(JsonView::Text(id)) => if id.len() > 0 {
                Some(id)
            } else {
                None
            },
            _ => None,
        },
        None => None,
    }
}

/// The first service that the answers name.
pub open spec fn first_named(replies: Seq<Option<HttpText>>) -> Option<Seq<char>>
    decreases replies.len(),
{
    if replies.len() == 0 {
        None
    } else if named_service(replies[0]) is Some {
        named_service(replies[0])
    } else {
        first_named(replies.skip(1))
    }
}

/// Where a listener is asked what it is: the discovery document, and for the
/// console the well-known path.
pub fn discovery_paths() -> (r: Vec<String>)
    ensures
        text::views(r@) == seq!["/"@, "/.well-known/unidpp-service"@],
{
    let r = vec!["/".to_string(), "/.well-known/unidpp-service".to_string()];
    assert(text::views(r@) =~= seq!["/"@, "/.well-known/unidpp-service"@]);
    r
}

fn service_of(reply: &Option<HttpText>) -> (r: Option<String>)
    ensures
        match r {
            Some(id) => named_service(*reply) == Some(id@),
            None => named_service(*reply) is None,
        },
{
    match document_of(reply) {
        Some(doc) => match doc.get("service") {
            Some(v) => match v.as_text() {
                Some(id) => if id.as_str().is_empty() {
                    None
                } else {
                    Some(id.clone())
                },
                None => None,
            },
            None => None,
        },
        None => None,
    }
}

/// The discovery document's `service` field names the listener — a healthy
/// /healthz alone cannot tell two family services apart; the console
/// identifies at the well-known path instead.
pub fn service_id(replies: &Vec<Option<HttpText>>) -> (r: Option<String>)
    ensures
        match r {
            Some(id) => first_named(replies@) == Some(id@),
            None => first_named(replies@) is None,
        },
{
    let mut i: usize = 0;
    assert(replies@.skip(0) =~= replies@);
    while i < replies.len()
        invariant
            i <= replies.len(),
            first_named(replies@.skip(i as int)) == first_named(replies@),
        decreases replies.len() - i,
    {
        assert(replies@.skip(i as int)[0] == replies@[i as int]);
        assert(replies@.skip(i as int).skip(1) =~= replies@.skip(i + 1));
        if let Some(id) = service_of(&replies[i]) {
            return Some(id);
        }
        i += 1;
    }
    None
}

/// The listener is healthy and names itself as the service of the repository.
pub open spec fn ours(health: Option<HttpText>, id: Option<&str>, repo: Seq<char>) -> bool {
    is_healthy(health) && (id matches Some(i) && i@ == repo)
}

/// The listener is the healthy service of the repository.
pub fn is_ours(health: &Option<HttpText>, id: Option<&str>, repo: &str) -> (r: bool)
    ensures
        r == ours(*health, id, repo@),
{
    healthy(health) && match id {
        Some(i) => same_text(i, repo),
        None => false,
    }
}

// ---------------------------------------------------------------------------
// Launch.
// ---------------------------------------------------------------------------

/// What comes of a service that is to be started, as mathematics.
pub enum LaunchView {
    Adopt(Seq<char>),
    Refuse(Seq<char>),
    Start(Seq<char>),
}

/// What comes of a service that is to be started.
pub enum Launch {
    /// A healthy listener of the right service is adopted; say so.
    Adopt(String),
    /// A foreign listener holds the port; end, and say so.
    Refuse(String),
    /// The service is launched; say so.
    Start(String),
}

impl View for Launch {
    type V = LaunchView;

    open spec fn view(&self) -> LaunchView {
        match self {
            Launch::Adopt(line) => LaunchView::Adopt(line@),
            Launch::Refuse(m) => LaunchView::Refuse(m@),
            Launch::Start(line) => LaunchView::Start(line@),
        }
    }
}

/// The address of a loopback port.
pub open spec fn loopback(port: nat) -> Seq<char> {
    "http://127.0.0.1:"@ + decimal::decimal(port)
}

fn loopback_of(port: u16) -> (r: String)
    ensures
        r@ == loopback(port as nat),
{
    cat2("http://127.0.0.1:", decimal_of(port as u64).as_str())
}

/// A name that may be unknown.
pub open spec fn known_or(name: Option<&str>) -> Seq<char> {
    match name {
        Some(n) => n@,
        None => "?"@,
    }
}

fn or_unknown(name: Option<&str>) -> (r: String)
    ensures
        r@ == known_or(name),
{
    match name {
        Some(n) => n.to_string(),
        None => "?".to_string(),
    }
}

/// What comes of a service that is to be started: it is adopted if it is
/// there, refused if another one holds its port, and started else.
pub open spec fn launch(
    spec: SpecView,
    ours: bool,
    taken: bool,
    holder: Seq<char>,
) -> LaunchView {
    if ours {
        LaunchView::Adopt(
            "==> "@ + spec.name + " already healthy on "@ + loopback(spec.port) + " (reusing)"@,
        )
    } else if taken {
        LaunchView::Refuse(
            "port "@ + decimal::decimal(spec.port) + " is held by '"@ + holder + "' but '"@
                + spec.repo + "' needs it — stop it first"@,
        )
    } else {
        LaunchView::Start("==> starting "@ + spec.name + " on "@ + loopback(spec.port))
    }
}

/// What comes of a service that is to be started.
pub fn start_service(spec: &ServiceSpec, ours: bool, taken: bool, holder: Option<&str>) -> (r:
    Launch)
    ensures
        r@ == launch(spec@, ours, taken, known_or(holder)),
{
    let url = loopback_of(spec.port);
    if ours {
        Launch::Adopt(
            cat5("==> ", spec.name.as_str(), " already healthy on ", url.as_str(), " (reusing)"),
        )
    } else if taken {
        let head = cat5(
            "port ",
            decimal_of(spec.port as u64).as_str(),
            " is held by '",
            or_unknown(holder).as_str(),
            "' but '",
        );
        Launch::Refuse(
            cat3(head.as_str(), spec.repo.as_str(), "' needs it — stop it first"),
        )
    } else {
        Launch::Start(cat4("==> starting ", spec.name.as_str(), " on ", url.as_str()))
    }
}

/// What comes of waiting for a service, as mathematics.
pub enum WaitView {
    Ready,
    Again(nat),
    Die(Seq<char>),
}

/// What comes of waiting for a service.
pub enum Wait {
    /// It is healthy.
    Ready,
    /// It is asked again, at most so many times.
    Again(u32),
    /// It did not come up; end, and say so.
    Die(String),
}

impl View for Wait {
    type V = WaitView;

    open spec fn view(&self) -> WaitView {
        match self {
            Wait::Ready => WaitView::Ready,
            Wait::Again(left) => WaitView::Again(*left as nat),
            Wait::Die(m) => WaitView::Die(m@),
        }
    }
}

/// What is said of a service that did not become healthy.
pub open spec fn unhealthy_text(spec: SpecView) -> Seq<char> {
    spec.name + " did not become healthy on "@ + loopback(spec.port) + " (see run/"@ + (spec.name
        + ".log)"@)
}

/// Waiting with so many tries left.
pub open spec fn waiting(spec: SpecView, left: nat) -> WaitView {
    if left == 0 {
        WaitView::Die(unhealthy_text(spec))
    } else {
        WaitView::Again(left)
    }
}

/// Waiting with so many tries left.
pub fn begin_wait(spec: &ServiceSpec, tries: u32) -> (r: Wait)
    ensures
        r@ == waiting(spec@, tries as nat),
{
    if tries == 0 {
        let tail = cat2(spec.name.as_str(), ".log)");
        Wait::Die(
            cat5(
                spec.name.as_str(),
                " did not become healthy on ",
                loopback_of(spec.port).as_str(),
                " (see run/",
                tail.as_str(),
            ),
        )
    } else {
        Wait::Again(tries)
    }
}

/// What comes of one try: the service is there, or its process is gone, or it
/// is asked again, one time less.
pub fn wait_step(spec: &ServiceSpec, left: u32, ours: bool, alive: bool) -> (r: Wait)
    ensures
        r@ == if ours {
            WaitView::Ready
        } else if !alive {
            WaitView::Die(
                spec@.name + " exited during startup (see run/"@ + spec@.name + ".log)"@,
            )
        } else {
            waiting(
                spec@,
                if left > 0 {
                    (left - 1) as nat
                } else {
                    0
                },
            )
        },
{
    if ours {
        Wait::Ready
    } else if !alive {
        Wait::Die(
            cat4(
                spec.name.as_str(),
                " exited during startup (see run/",
                spec.name.as_str(),
                ".log)",
            ),
        )
    } else {
        begin_wait(
            spec,
            if left > 0 {
                left - 1
            } else {
                0
            },
        )
    }
}

/// Whether a program has to be built: it is not there, or a build is forced.
pub fn needs_build(bin_is_file: bool, force: Option<&str>) -> (r: bool)
    ensures
        r == (!bin_is_file || (force matches Some(f) && f@ == "1"@)),
{
    !bin_is_file || match force {
        Some(f) => same_text(f, "1"),
        None => false,
    }
}

/// Whether a build can begin, and what it says.
pub fn begin_build(repo: &str, bin: &str, cargo: bool) -> (r: Result<String, String>)
    ensures
        match r {
            Ok(line) => cargo && line@ == "==> building "@ + repo@ + " (release)"@,
            Err(m) => !cargo && m@ == "cargo not found and no prebuilt binary at "@ + bin@,
        },
{
    if cargo {
        Ok(cat3("==> building ", repo, " (release)"))
    } else {
        Err(cat2("cargo not found and no prebuilt binary at ", bin))
    }
}

/// Whether a build has left the program.
pub fn end_build(bin: &str, ok: bool, bin_is_file: bool) -> (r: Result<(), String>)
    ensures
        match r {
            Ok(_) => ok && bin_is_file,
            Err(m) => !(ok && bin_is_file) && m@ == "build finished but "@ + bin@ + " is missing"@,
        },
{
    if ok && bin_is_file {
        Ok(())
    } else {
        Err(cat3("build finished but ", bin, " is missing"))
    }
}

// ---------------------------------------------------------------------------
// The tunnels.
// ---------------------------------------------------------------------------

/// A named tunnel, as mathematics.
pub struct TunnelView {
    pub stem: Seq<char>,
    pub host: Seq<char>,
    pub port: nat,
}

/// A named tunnel: the stem of its files, its public hostname and the
/// loopback port behind it.
pub struct Tunnel {
    pub stem: String,
    pub host: String,
    pub port: u16,
}

impl View for Tunnel {
    type V = TunnelView;

    open spec fn view(&self) -> TunnelView {
        TunnelView { stem: self.stem@, host: self.host@, port: self.port as nat }
    }
}

fn tunnel(stem: &str, host: &str, port: u16) -> (r: Tunnel)
    ensures
        r@ == (TunnelView { stem: stem@, host: host@, port: port as nat }),
{
    Tunnel { stem: stem.to_string(), host: host.to_string(), port }
}

/// The tunnels of the pilot.
pub open spec fn tunnel_table() -> Seq<TunnelView> {
    seq![
        TunnelView { stem: "tunnel"@, host: "registry.unidpp.org"@, port: 8390 },
        TunnelView { stem: "jp-tunnel"@, host: "registry-jp.unidpp.org"@, port: 8399 },
        TunnelView { stem: "console-tunnel"@, host: "console.unidpp.org"@, port: 8389 },
        TunnelView { stem: "trust-tunnel"@, host: "trust.unidpp.org"@, port: 8391 },
        TunnelView { stem: "log-tunnel"@, host: "log.unidpp.org"@, port: 8392 },
    ]
}

/// The tunnels of the pilot.
pub fn tunnels() -> (r: Vec<Tunnel>)
    ensures
        r@.map_values(|t: Tunnel| t@) == tunnel_table(),
{
    let r = vec![
        tunnel("tunnel", "registry.unidpp.org", 8390),
        tunnel("jp-tunnel", "registry-jp.unidpp.org", 8399),
        tunnel("console-tunnel", "console.unidpp.org", 8389),
        tunnel("trust-tunnel", "trust.unidpp.org", 8391),
        tunnel("log-tunnel", "log.unidpp.org", 8392),
    ];
    assert(r@.map_values(|t: Tunnel| t@) =~= tunnel_table());
    r
}

/// What comes of a tunnel, as mathematics.
pub enum TunnelChoiceView {
    Skip(Seq<char>),
    Start(Seq<char>),
}

/// What comes of a tunnel.
pub enum TunnelChoice {
    /// It is left as it is; say so.
    Skip(String),
    /// It is started; say so.
    Start(String),
}

impl View for TunnelChoice {
    type V = TunnelChoiceView;

    open spec fn view(&self) -> TunnelChoiceView {
        match self {
            TunnelChoice::Skip(line) => TunnelChoiceView::Skip(line@),
            TunnelChoice::Start(line) => TunnelChoiceView::Start(line@),
        }
    }
}

/// What comes of a tunnel: an absent token skips cleanly; a live process is
/// adopted; without the tool it is skipped; else it starts.
pub open spec fn tunnel_choice(
    t: TunnelView,
    token: bool,
    running: Option<nat>,
    installed: bool,
) -> TunnelChoiceView {
    if !token {
        TunnelChoiceView::Skip(
            "==> no "@ + t.stem + ".token — "@ + t.host + " stays loopback-only"@,
        )
    } else if running is Some {
        TunnelChoiceView::Skip(
            "==> "@ + t.stem + ": already running (pid "@ + decimal::decimal(running->0) + ")"@,
        )
    } else if !installed {
        TunnelChoiceView::Skip(
            "==> "@ + t.stem
                + ".token present but cloudflared is not installed — skipping"@,
        )
    } else {
        TunnelChoiceView::Start(
            "==> starting cloudflared named tunnel ("@ + t.host + " -> "@ + decimal::decimal(
                t.port,
            ) + ")"@,
        )
    }
}

/// A process that may run.
pub open spec fn process_view(pid: Option<u32>) -> Option<nat> {
    match pid {
        Some(p) => Some(p as nat),
        None => None,
    }
}

/// What comes of a tunnel: `token` says whether its token file holds
/// anything, `running` is the live process that its pid file names, and
/// `installed` says whether the tool is there.
pub fn ensure_named_tunnel(t: &Tunnel, token: bool, running: Option<u32>, installed: bool) -> (r:
    TunnelChoice)
    ensures
        r@ == tunnel_choice(t@, token, process_view(running), installed),
{
    if !token {
        return TunnelChoice::Skip(
            cat5(
                "==> no ",
                t.stem.as_str(),
                ".token — ",
                t.host.as_str(),
                " stays loopback-only",
            ),
        );
    }
    if let Some(pid) = running {
        return TunnelChoice::Skip(
            cat5(
                "==> ",
                t.stem.as_str(),
                ": already running (pid ",
                decimal_of(pid as u64).as_str(),
                ")",
            ),
        );
    }
    if !installed {
        return TunnelChoice::Skip(
            cat3(
                "==> ",
                t.stem.as_str(),
                ".token present but cloudflared is not installed — skipping",
            ),
        );
    }
    TunnelChoice::Start(
        cat5(
            "==> starting cloudflared named tunnel (",
            t.host.as_str(),
            " -> ",
            decimal_of(t.port as u64).as_str(),
            ")",
        ),
    )
}

/// The arguments that a tunnel's program is started with.
pub fn tunnel_args(token: &str, port: u16) -> (r: Vec<String>)
    ensures
        text::views(r@) == seq![
            "tunnel"@,
            "run"@,
            "--token"@,
            text::trim(token@),
            "--url"@,
            loopback(port as nat),
        ],
{
    let chars = chars_of(token);
    let secret = text_of(trimmed(chars.as_slice()));
    let r = vec![
        "tunnel".to_string(),
        "run".to_string(),
        "--token".to_string(),
        secret,
        "--url".to_string(),
        loopback_of(port),
    ];
    assert(text::views(r@) =~= seq![
        "tunnel"@,
        "run"@,
        "--token"@,
        text::trim(token@),
        "--url"@,
        loopback(port as nat),
    ]);
    r
}

// ---------------------------------------------------------------------------
// `up`.
// ---------------------------------------------------------------------------

/// What `up` begins with: the directories that the services need.
pub fn begin_up(pilot: &Pilot) -> (r: Plan)
    ensures
        r@ == seq![
            StepView::MakeDir { path: pilot.run(), fault: FaultView::Panic },
            StepView::MakeDir {
                path: path::below(pilot.dir@, "passports"@),
                fault: FaultView::Panic,
            },
        ],
{
    let mut plan = Plan::new();
    plan.then_do(Step::MakeDir { path: pilot.run_dir(), fault: Fault::Panic });
    plan.then_do(
        Step::MakeDir { path: join(pilot.dir.as_str(), "passports"), fault: Fault::Panic },
    );
    plan
}

/// Starting is the idempotent repair: a healthy service is reused untouched
/// and a live tunnel is left alone, so a second run changes nothing.
pub proof fn law_repair_reuses_what_is_healthy(
    spec: SpecView,
    health: Option<HttpText>,
    id: Option<&str>,
    taken: bool,
    holder: Seq<char>,
    t: TunnelView,
    token: bool,
    pid: nat,
    installed: bool,
)
    requires
        ours(health, id, spec.repo),
    ensures
        launch(spec, ours(health, id, spec.repo), taken, holder) is Adopt,
        tunnel_choice(t, token, Some(pid), installed) is Skip,
{
}

/// A foreign listener is named and refused, never adopted and never started
/// over.
pub proof fn law_foreign_listeners_are_refused(
    spec: SpecView,
    health: Option<HttpText>,
    id: Option<&str>,
)
    requires
        id matches Some(i) && i@ != spec.repo,
    ensures
        launch(spec, ours(health, id, spec.repo), true, known_or(id)) == LaunchView::Refuse(
            "port "@ + decimal::decimal(spec.port) + " is held by '"@ + id->0@ + "' but '"@
                + spec.repo + "' needs it — stop it first"@,
        ),
{
}

/// The lines that end `up`.
pub fn cmd_up() -> (r: Plan)
    ensures
        r@ == seq![
            StepView::Say(""@),
            StepView::Say("==> stack up: 8390 registry · 8391 trust · 8392 log · 8393 issuer"@),
            StepView::Say("               8394 projector · 8395 gateway · 8396 archive"@),
            StepView::Say(
                "               8397 hub (stateless relay) · 8389 console · 8399 JP peer"@,
            ),
            StepView::Say("==> next: unidpp-stack seed-jp   (idempotent)"@),
        ],
{
    let mut plan = Plan::new();
    plan.say_text("");
    plan.say_text("==> stack up: 8390 registry · 8391 trust · 8392 log · 8393 issuer");
    plan.say_text("               8394 projector · 8395 gateway · 8396 archive");
    plan.say_text("               8397 hub (stateless relay) · 8389 console · 8399 JP peer");
    plan.say_text("==> next: unidpp-stack seed-jp   (idempotent)");
    plan
}

// ---------------------------------------------------------------------------
// `down`.
// ---------------------------------------------------------------------------

/// What is stopped, in this order.
pub open spec fn down_order() -> Seq<Seq<char>> {
    seq![
        "console"@,
        "archive"@,
        "hub"@,
        "gateway"@,
        "projector"@,
        "issuer"@,
        "log"@,
        "trust"@,
        "registry"@,
        "jp-registry"@,
        "tunnel"@,
        "jp-tunnel"@,
        "console-tunnel"@,
        "trust-tunnel"@,
        "log-tunnel"@,
    ]
}

/// What is stopped, in this order.
pub fn down_names() -> (r: Vec<String>)
    ensures
        text::views(r@) == down_order(),
{
    let r = vec![
        "console".to_string(),
        "archive".to_string(),
        "hub".to_string(),
        "gateway".to_string(),
        "projector".to_string(),
        "issuer".to_string(),
        "log".to_string(),
        "trust".to_string(),
        "registry".to_string(),
        "jp-registry".to_string(),
        "tunnel".to_string(),
        "jp-tunnel".to_string(),
        "console-tunnel".to_string(),
        "trust-tunnel".to_string(),
        "log-tunnel".to_string(),
    ];
    assert(text::views(r@) =~= down_order());
    r
}

/// The process to stop, by a pid file's text: a number above zero.
pub fn process_to_stop(pidfile: &str) -> (r: Option<u32>)
    ensures
        match r {
            Some(pid) => pid > 0 && recover::pid_of(pidfile@) == Some(pid as nat),
            None => match recover::pid_of(pidfile@) {
                Some(n) => n == 0,
                None => true,
            },
        },
{
    match pid_in(pidfile) {
        Some(pid) => if pid > 0 {
            Some(pid)
        } else {
            None
        },
        None => None,
    }
}

/// What is said of something that was to be stopped.
pub open spec fn stopped_text(name: Seq<char>, pidfile: Seq<char>, stopped: Option<bool>) -> Seq<
    char,
> {
    let pid = text::trim(pidfile);
    "==> "@ + name + match stopped {
        Some(true) => " stopped (pid "@ + pid + ")"@,
        Some(false) => " pid "@ + pid + " not stopping"@,
        None => " pid "@ + pid + " not running (stale pid file)"@,
    }
}

/// What is done once something was to be stopped.
pub open spec fn down_steps(
    run_dir: Seq<char>,
    name: Seq<char>,
    pidfile: Seq<char>,
    stopped: Option<bool>,
) -> Seq<StepView> {
    seq![
        StepView::Say(stopped_text(name, pidfile, stopped)),
        StepView::RemoveFile { path: path::below(run_dir, name + ".pid"@) },
    ]
}

/// What is done once something was to be stopped: it is said how that went,
/// and its pid file goes. `stopped` is whether the live process took the
/// signal, and nothing where none was alive.
pub fn cmd_down(run_dir: &str, name: &str, pidfile: &str, stopped: Option<bool>) -> (r: Plan)
    ensures
        r@ == down_steps(run_dir@, name@, pidfile@, stopped),
{
    let chars = chars_of(pidfile);
    let pid = text_of(trimmed(chars.as_slice()));
    let tail: String = match stopped {
        Some(yes) => if yes {
            cat3(" stopped (pid ", pid.as_str(), ")")
        } else {
            cat3(" pid ", pid.as_str(), " not stopping")
        },
        None => cat3(" pid ", pid.as_str(), " not running (stale pid file)"),
    };
    let mut plan = Plan::new();
    plan.say(cat3("==> ", name, tail.as_str()));
    plan.then_do(Step::RemoveFile { path: pid_path(run_dir, name) });
    assert(plan@ =~= down_steps(run_dir@, name@, pidfile@, stopped));
    plan
}

/// Stopping preserves the journals: all that is removed is a pid file, and no
/// journal, whatever its directory, has the path of one.
pub proof fn law_down_preserves_the_journals(
    run_dir: Seq<char>,
    name: Seq<char>,
    pidfile: Seq<char>,
    stopped: Option<bool>,
    journal: Seq<char>,
    k: int,
)
    requires
        0 <= k < down_steps(run_dir, name, pidfile, stopped).len(),
        text::ends_with(journal, "journal.jsonl"@),
    ensures
        match down_steps(run_dir, name, pidfile, stopped)[k] {
            StepView::Say(_) => true,
            StepView::RemoveFile { path } => path != journal,
            _ => false,
        },
{
    reveal_strlit("journal.jsonl");
    reveal_strlit(".pid");
    reveal_strlit("/");
    let file = name + ".pid"@;
    let gone = path::below(run_dir, file);
    assert(file.last() == 'd');
    assert(gone.last() == 'd');
    assert(journal.last() == journal.skip(journal.len() - "journal.jsonl"@.len()).last());
    assert(journal.last() == 'l');
}

/// The line that ends `down`.
pub fn preserved_line() -> (r: String)
    ensures
        r@ == "==> journals preserved (registry-journal.jsonl, run/*-journal.jsonl)"@,
{
    "==> journals preserved (registry-journal.jsonl, run/*-journal.jsonl)".to_string()
}

// ---------------------------------------------------------------------------
// `status`.
// ---------------------------------------------------------------------------

/// The version that a discovery document names.
pub open spec fn named_version(reply: Option<HttpText>) -> Option<Seq<char>> {
    match http::document(reply) {
        Some(doc) => match json::get(doc, "version"@) {
            Some(v) => json::as_text(v),
            None => None,
        },
        None => None,
    }
}

/// The first version that the answers name, `?` where they name none.
pub open spec fn first_version(replies: Seq<Option<HttpText>>) -> Seq<char>
    decreases replies.len(),
{
    if replies.len() == 0 {
        "?"@
    } else if named_version(replies[0]) is Some {
        named_version(replies[0])->0
    } else {
        first_version(replies.skip(1))
    }
}

/// Where a listener is asked for its version.
pub fn version_paths() -> (r: Vec<String>)
    ensures
        text::views(r@) == seq!["/.well-known/unidpp-service"@, "/"@],
{
    let r = vec!["/.well-known/unidpp-service".to_string(), "/".to_string()];
    assert(text::views(r@) =~= seq!["/.well-known/unidpp-service"@, "/"@]);
    r
}

fn version_of(reply: &Option<HttpText>) -> (r: Option<String>)
    ensures
        match r {
            Some(v) => named_version(*reply) == Some(v@),
            None => named_version(*reply) is None,
        },
{
    match document_of(reply) {
        Some(doc) => match doc.get("version") {
            Some(v) => match v.as_text() {
                Some(t) => Some(t.clone()),
                None => None,
            },
            None => None,
        },
        None => None,
    }
}

/// The version that a listener names, `?` where it names none.
pub fn probe_version(replies: &Vec<Option<HttpText>>) -> (r: String)
    ensures
        r@ == first_version(replies@),
{
    let mut i: usize = 0;
    assert(replies@.skip(0) =~= replies@);
    while i < replies.len()
        invariant
            i <= replies.len(),
            first_version(replies@.skip(i as int)) == first_version(replies@),
        decreases replies.len() - i,
    {
        assert(replies@.skip(i as int)[0] == replies@[i as int]);
        assert(replies@.skip(i as int).skip(1) =~= replies@.skip(i + 1));
        if let Some(v) = version_of(&replies[i]) {
            return v;
        }
        i += 1;
    }
    "?".to_string()
}

/// The number of items under a key of an answer, `?` where it has none.
pub open spec fn item_count(reply: Option<HttpText>, key: Seq<char>) -> Seq<char> {
    match http::document(reply) {
        Some(doc) => match json::get(doc, key) {
            Some(JsonView::Array(items)) => decimal::decimal(items.len()),
            _ => "?"@,
        },
        None => "?"@,
    }
}

/// The number of items under a key of an answer, `?` where it has none.
pub fn json_count(reply: &Option<HttpText>, key: &str) -> (r: String)
    ensures
        r@ == item_count(*reply, key@),
{
    match document_of(reply) {
        Some(doc) => match doc.get(key) {
            Some(v) => match v.as_array() {
                Some(items) => decimal_of(items.len() as u64),
                None => "?".to_string(),
            },
            None => "?".to_string(),
        },
        None => "?".to_string(),
    }
}

/// The line on the registry's journal, by its items and its services.
pub fn registry_line(items: &Option<HttpText>, services: &Option<HttpText>) -> (r: String)
    ensures
        r@ == "  registry journal: "@ + item_count(*items, "items"@) + " items, "@ + item_count(
            *services,
            "services"@,
        ) + " discovery services"@,
{
    cat5(
        "  registry journal: ",
        json_count(items, "items").as_str(),
        " items, ",
        json_count(services, "services").as_str(),
        " discovery services",
    )
}

/// The size of the log's tree, 0 where the document names none.
pub open spec fn tree_size(doc: JsonView) -> nat {
    match json::integer(json::field(doc, "tree_size"@)) {
        Some(n) => n as nat,
        None => 0,
    }
}

/// The line on the log's tree head, if the log's answer is JSON.
pub fn log_line(reply: &Option<HttpText>) -> (r: Option<String>)
    ensures
        match r {
            Some(line) => reply is Some && json::parsed(reply->0.body@) is Ok && line@
                == "  log tree head: size "@ + decimal::decimal(
                tree_size(json::parsed(reply->0.body@)->Ok_0),
            ),
            None => reply is None || json::parsed(reply->0.body@) is Err,
        },
{
    match reply {
        Some(answer) => match parse_json(answer.body.as_str()) {
            Ok(doc) => {
                let size: u64 = match doc.get("tree_size") {
                    Some(v) => match v.as_u64() {
                        Some(n) => n,
                        None => 0,
                    },
                    None => 0,
                };
                Some(cat2("  log tree head: size ", decimal_of(size).as_str()))
            },
            Err(_) => None,
        },
        None => None,
    }
}

/// A text with blanks after it, up to a width.
pub open spec fn wide(s: Seq<char>, width: int) -> Seq<char> {
    if s.len() < width {
        s + Seq::new((width - s.len()) as nat, |i: int| ' ')
    } else {
        s
    }
}

fn widened(s: &str, width: usize) -> (r: String)
    ensures
        r@ == wide(s@, width as int),
{
    let mut out = s.to_string();
    let mut n: usize = chars_of(s).len();
    let ghost start = s@.len();
    assert(s@ + Seq::new(0, |i: int| ' ') =~= s@);
    while n < width
        invariant
            start == s@.len(),
            start <= n,
            n <= width || n == start,
            out@ == s@ + Seq::new((n - start) as nat, |i: int| ' '),
        decreases width - n,
    {
        out.push(' ');
        assert(out@ =~= s@ + Seq::new((n + 1 - start) as nat, |i: int| ' '));
        n += 1;
    }
    assert(s@.len() >= width ==> out@ =~= s@);
    out
}

/// How a service stands.
pub struct Standing {
    pub spec: ServiceSpec,
    /// The listener is the healthy service itself.
    pub ours: bool,
    /// Its version, where it is.
    pub version: String,
    /// Something listens at its port.
    pub taken: bool,
    /// What listens there.
    pub holder: Option<String>,
}

/// The line on how a service stands.
pub open spec fn standing_text(s: Standing) -> Seq<char> {
    "  "@ + wide(s.spec@.name, 10) + " "@ + wide("("@ + s.spec@.repo + ")"@, 18) + (" "@ + loopback(
        s.spec@.port,
    )) + if s.ours {
        "  healthy  v"@ + s.version@
    } else if s.taken {
        "  HELD BY "@ + match s.holder {
            Some(h) => h@,
            None => "?"@,
        }
    } else {
        "  DOWN"@
    }
}

fn standing_line(s: &Standing) -> (r: String)
    ensures
        r@ == standing_text(*s),
{
    let repo = cat3("(", s.spec.repo.as_str(), ")");
    let head = cat5(
        "  ",
        widened(s.spec.name.as_str(), 10).as_str(),
        " ",
        widened(repo.as_str(), 18).as_str(),
        cat2(" ", loopback_of(s.spec.port).as_str()).as_str(),
    );
    if s.ours {
        let tail = cat2("  healthy  v", s.version.as_str());
        cat2(head.as_str(), tail.as_str())
    } else if s.taken {
        let holder: &str = match &s.holder {
            Some(h) => h.as_str(),
            None => "?",
        };
        let tail = cat2("  HELD BY ", holder);
        cat2(head.as_str(), tail.as_str())
    } else {
        cat2(head.as_str(), "  DOWN")
    }
}

/// How a tunnel stands: what its public hostname answers, if its process is
/// alive.
pub struct TunnelStanding {
    pub stem: String,
    pub host: String,
    pub code: Option<String>,
}

/// The tunnel runs, and its hostname does not answer.
pub open spec fn is_dark(t: TunnelStanding) -> bool {
    t.code matches Some(code) && code@ != "200"@
}

/// The line on how a tunnel stands.
pub open spec fn tunnel_text(t: TunnelStanding) -> Seq<char> {
    match t.code {
        Some(code) => "  "@ + t.stem@ + ": running -> https://"@ + t.host@ + if code@ == "200"@ {
            " (public 200)"@
        } else {
            " (public "@ + code@ + " — origin unreachable?)"@
        },
        None => "  "@ + t.stem@ + ": not running ("@ + t.host@ + " dark)"@,
    }
}

fn tunnel_line(t: &TunnelStanding) -> (r: (String, bool))
    ensures
        r.0@ == tunnel_text(*t),
        r.1 == is_dark(*t),
{
    match &t.code {
        Some(code) => {
            let up = same_text(code.as_str(), "200");
            let tail: String = if up {
                " (public 200)".to_string()
            } else {
                cat3(" (public ", code.as_str(), " — origin unreachable?)")
            };
            (
                cat5(
                    "  ",
                    t.stem.as_str(),
                    ": running -> https://",
                    t.host.as_str(),
                    tail.as_str(),
                ),
                !up,
            )
        },
        None => (
            cat5("  ", t.stem.as_str(), ": not running (", t.host.as_str(), " dark)"),
            false,
        ),
    }
}

/// What a public hostname answered, by the output of the tool that asked, and
/// `?` where the tool could not run.
pub fn public_code(out: &Option<Vec<u8>>) -> (r: String)
    ensures
        r@ == match out {
            Some(bytes) => text::trim(text::lossy(bytes@)),
            None => "?"@,
        },
{
    match out {
        Some(bytes) => {
            let said = text_from(bytes.as_slice());
            let chars = chars_of(said.as_str());
            text_of(trimmed(chars.as_slice()))
        },
        None => "?".to_string(),
    }
}

/// A line that may be there.
pub open spec fn optional_line(line: Option<String>) -> Seq<StepView> {
    match line {
        Some(t) => seq![StepView::Say(t@)],
        None => seq![],
    }
}

/// The lines of the report on the stack.
pub open spec fn status_steps(
    standings: Seq<Standing>,
    registry: Option<String>,
    log: Option<String>,
    tunnels: Seq<TunnelStanding>,
) -> Seq<StepView> {
    standings.map_values(|s: Standing| StepView::Say(standing_text(s))) + optional_line(registry)
        + optional_line(log) + tunnels.map_values(
        |t: TunnelStanding| StepView::Say(tunnel_text(t)),
    )
}

/// Something is down or publicly unreachable.
pub open spec fn is_failed(standings: Seq<Standing>, tunnels: Seq<TunnelStanding>) -> bool {
    (exists|i: int| 0 <= i < standings.len() && !(#[trigger] standings[i]).ours) || (exists|i: int|
        0 <= i < tunnels.len() && is_dark(#[trigger] tunnels[i]))
}

/// The report on the stack: it fails when anything is down or publicly
/// unreachable.
pub fn cmd_status(
    standings: &Vec<Standing>,
    registry: Option<String>,
    log: Option<String>,
    tunnels: &Vec<TunnelStanding>,
) -> (r: Outcome)
    ensures
        r.plan@ == status_steps(standings@, registry, log, tunnels@),
        r.ending@ == if is_failed(standings@, tunnels@) {
            EndingView::Fail
        } else {
            EndingView::Done
        },
        r.ending@ is Done <==> (forall|i: int|
            0 <= i < standings@.len() ==> (#[trigger] standings@[i]).ours) && (forall|i: int|
            0 <= i < tunnels@.len() ==> ((#[trigger] tunnels@[i]).code matches Some(code)
                ==> code@ == "200"@)),
{
    let ghost all = standings@.map_values(|s: Standing| StepView::Say(standing_text(s)));
    let mut plan = Plan::new();
    let mut failed = false;
    let mut i: usize = 0;
    assert(plan@ =~= all.take(0));
    while i < standings.len()
        invariant
            i <= standings.len(),
            all == standings@.map_values(|s: Standing| StepView::Say(standing_text(s))),
            plan@ == all.take(i as int),
            failed == exists|k: int| 0 <= k < i && !(#[trigger] standings@[k]).ours,
        decreases standings.len() - i,
    {
        plan.say(standing_line(&standings[i]));
        assert(all.take(i + 1) =~= all.take(i as int).push(all[i as int]));
        if !standings[i].ours {
            failed = true;
            assert(!standings@[i as int].ours);
        }
        i += 1;
    }
    assert(all.take(i as int) =~= all);
    let ghost front = all + optional_line(registry) + optional_line(log);
    if let Some(line) = registry {
        plan.say(line);
    }
    if let Some(line) = log {
        plan.say(line);
    }
    assert(plan@ =~= front);
    let ghost rest = tunnels@.map_values(|t: TunnelStanding| StepView::Say(tunnel_text(t)));
    let mut dark = false;
    let mut j: usize = 0;
    assert(front + rest.take(0) =~= front);
    while j < tunnels.len()
        invariant
            j <= tunnels.len(),
            rest == tunnels@.map_values(|t: TunnelStanding| StepView::Say(tunnel_text(t))),
            plan@ == front + rest.take(j as int),
            dark == exists|k: int| 0 <= k < j && is_dark(#[trigger] tunnels@[k]),
        decreases tunnels.len() - j,
    {
        let (line, unreachable) = tunnel_line(&tunnels[j]);
        plan.say(line);
        assert(rest.take(j + 1) =~= rest.take(j as int).push(rest[j as int]));
        if unreachable {
            dark = true;
            assert(is_dark(tunnels@[j as int]));
        }
        j += 1;
    }
    assert(rest.take(j as int) =~= rest);
    Outcome {
        plan,
        ending: if failed || dark {
            Ending::Fail
        } else {
            Ending::Done
        },
    }
}

// ---------------------------------------------------------------------------
// `seed-jp`.
// ---------------------------------------------------------------------------

/// The port of the JP node, by its address: what stands after the last colon,
/// if that is a port.
pub open spec fn jp_port(url: Option<&str>) -> nat {
    match url {
        Some(u) => {
            let parts = text::split(u@, ':');
            match decimal::parse_number(parts.last(), u16::MAX as nat) {
                Some(p) => p,
                None => 8399,
            }
        },
        None => 8399,
    }
}

/// The port of the JP node.
pub fn jp_node_port(url: Option<&str>) -> (r: u16)
    ensures
        r == jp_port(url),
{
    match url {
        Some(u) => {
            let parts = pieces(chars_of(u).as_slice(), ':');
            let last = &parts[parts.len() - 1];
            assert(text::views(parts@).last() == last@);
            match parsed_number(chars_of(last.as_str()).as_slice(), u16::MAX as u64) {
                Some(p) => p as u16,
                None => 8399,
            }
        },
        None => 8399,
    }
}

/// Something to be registered, as mathematics.
pub struct SeedView {
    pub path: Seq<char>,
    pub file: Seq<char>,
    pub label: Seq<char>,
}

/// Something to be registered: where, from which file, and what it is.
pub struct Seed {
    pub path: String,
    pub file: String,
    pub label: String,
}

impl View for Seed {
    type V = SeedView;

    open spec fn view(&self) -> SeedView {
        SeedView { path: self.path@, file: self.file@, label: self.label@ }
    }
}

/// The JP peer's own data.
pub open spec fn jp_data() -> Seq<SeedView> {
    seq![
        SeedView {
            path: "/items"@,
            file: "seed/items/profile-jp-road-traffic.json"@,
            label: "jp-road-traffic profile"@,
        },
        SeedView {
            path: "/applicability"@,
            file: "seed/bindings/profile-jp-road-traffic-on-momiji-e8.json"@,
            label: "jp-road-traffic binding"@,
        },
    ]
}

/// The JP peer's own data.
pub fn jp_seeds() -> (r: Vec<Seed>)
    ensures
        r@.map_values(|s: Seed| s@) == jp_data(),
{
    let r = vec![
        Seed {
            path: "/items".to_string(),
            file: "seed/items/profile-jp-road-traffic.json".to_string(),
            label: "jp-road-traffic profile".to_string(),
        },
        Seed {
            path: "/applicability".to_string(),
            file: "seed/bindings/profile-jp-road-traffic-on-momiji-e8.json".to_string(),
            label: "jp-road-traffic binding".to_string(),
        },
    ];
    assert(r@.map_values(|s: Seed| s@) =~= jp_data());
    r
}

/// Whether the JP node can be seeded: it has to be healthy.
pub fn begin_seed_jp(health: &Option<HttpText>) -> (r: Result<(), String>)
    ensures
        match r {
            Ok(_) => is_healthy(*health),
            Err(m) => !is_healthy(*health) && m@ == "JP node not healthy (run: unidpp-stack up)"@,
        },
{
    if healthy(health) {
        Ok(())
    } else {
        Err("JP node not healthy (run: unidpp-stack up)".to_string())
    }
}

/// The line that ends the seeding of the JP node.
pub fn seeded_line() -> (r: String)
    ensures
        r@
            == "JP node seeded: 1 profile + 1 applicability binding (its own journal, its own register)"@,
{
    "JP node seeded: 1 profile + 1 applicability binding (its own journal, its own register)".to_string()
}

/// What comes of a registration: it is new, or it was there already; anything
/// else ends the seeding.
pub fn cmd_seed_jp(seed: &Seed, reply: &Option<HttpText>) -> (r: Result<String, String>)
    ensures
        ({
            let s = seed@;
            match r {
                Ok(line) => reply is Some && ({
                    ||| reply->0.status == 201 && line@ == "  [ok]   "@ + s.label + " registered"@
                    ||| reply->0.status == 409 && line@ == "  [skip] "@ + s.label
                        + " already present"@
                }),
                Err(m) => match reply {
                    None => m@ == s.label + ": no answer"@,
                    Some(a) => a.status != 201 && a.status != 409 && m@ == s.label + ": POST "@
                        + s.path + " returned "@ + decimal::decimal(a.status as nat),
                },
            }
        }),
{
    let label = seed.label.as_str();
    match reply {
        None => Err(cat2(label, ": no answer")),
        Some(answer) => if answer.status == 201 {
            Ok(cat3("  [ok]   ", label, " registered"))
        } else if answer.status == 409 {
            Ok(cat3("  [skip] ", label, " already present"))
        } else {
            Err(
                cat5(
                    label,
                    ": POST ",
                    seed.path.as_str(),
                    " returned ",
                    decimal_of(answer.status as u64).as_str(),
                ),
            )
        },
    }
}

// ---------------------------------------------------------------------------
// `tenant <name> [up|down|status]`.
// ---------------------------------------------------------------------------

/// What is to be done with a tenant.
pub enum TenantAction {
    Up,
    Stop,
    Status,
}

/// The word for what is to be done with a tenant.
pub open spec fn action_word(action: TenantAction) -> Seq<char> {
    match action {
        TenantAction::Up => "up"@,
        TenantAction::Stop => "stop"@,
        TenantAction::Status => "status"@,
    }
}

/// Whether there is a tenant to do anything with: it has a manifest.
pub fn begin_tenant(manifest: &str, is_file: bool) -> (r: Result<(), String>)
    ensures
        match r {
            Ok(_) => is_file,
            Err(m) => !is_file && m@ == "no manifest at "@ + manifest@,
        },
{
    if is_file {
        Ok(())
    } else {
        Err(cat2("no manifest at ", manifest))
    }
}

/// The line that begins what is done with a tenant.
pub fn tenant_heading(tenant: &str, action: &TenantAction) -> (r: String)
    ensures
        r@ == "tenant "@ + tenant@ + " ("@ + action_word(*action) + "):"@,
{
    let word: &str = match action {
        TenantAction::Up => "up",
        TenantAction::Stop => "stop",
        TenantAction::Status => "status",
    };
    cat5("tenant ", tenant, " (", word, "):")
}

/// The services of a tenant: their names and their repositories.
pub open spec fn tenant_table() -> Seq<(Seq<char>, Seq<char>)> {
    seq![
        ("registry"@, "unidpp-registry"@),
        ("issuer"@, "unidpp-issuer"@),
        ("console"@, "unidpp-console"@),
    ]
}

/// The services of a tenant: their names and their repositories.
pub fn tenant_services() -> (r: Vec<(String, String)>)
    ensures
        environment::pair_views(r@) == tenant_table(),
{
    let r = vec![
        ("registry".to_string(), "unidpp-registry".to_string()),
        ("issuer".to_string(), "unidpp-issuer".to_string()),
        ("console".to_string(), "unidpp-console".to_string()),
    ];
    assert(environment::pair_views(r@) =~= tenant_table());
    r
}

/// What is next for a tenant's service, as mathematics.
pub enum TenantNextView {
    Say(Seq<char>),
    Stop(Option<(nat, Seq<char>)>),
    Launch,
}

/// What is next for a tenant's service.
pub enum TenantNext {
    /// Say this.
    Say(String),
    /// Stop this process and say so, if there is one; forget the pid file.
    Stop(Option<(u32, String)>),
    /// Launch the service.
    Launch,
}

impl View for TenantNext {
    type V = TenantNextView;

    open spec fn view(&self) -> TenantNextView {
        match self {
            TenantNext::Say(line) => TenantNextView::Say(line@),
            TenantNext::Stop(Some(p)) => TenantNextView::Stop(Some((p.0 as nat, p.1@))),
            TenantNext::Stop(None) => TenantNextView::Stop(None),
            TenantNext::Launch => TenantNextView::Launch,
        }
    }
}

/// What is next for a tenant's service, by the live process that its pid file
/// names: one that runs is not started again.
pub open spec fn tenant_next(
    action: TenantAction,
    tenant: Seq<char>,
    name: Seq<char>,
    running: Option<nat>,
) -> TenantNextView {
    match action {
        TenantAction::Stop => TenantNextView::Stop(
            match running {
                Some(pid) => Some((pid, "stopped "@ + tenant + "/"@ + name)),
                None => None,
            },
        ),
        TenantAction::Status => TenantNextView::Say(
            match running {
                Some(pid) => "  "@ + name + ": running (pid "@ + decimal::decimal(pid) + ")"@,
                None => "  "@ + name + ": down"@,
            },
        ),
        TenantAction::Up => match running {
            Some(pid) => TenantNextView::Say(
                "  "@ + name + ": already running (pid "@ + decimal::decimal(pid) + ")"@,
            ),
            None => TenantNextView::Launch,
        },
    }
}

/// What is next for a tenant's service.
pub fn cmd_tenant(action: &TenantAction, tenant: &str, name: &str, running: Option<u32>) -> (r:
    TenantNext)
    ensures
        r@ == tenant_next(*action, tenant@, name@, process_view(running)),
{
    match action {
        TenantAction::Stop => match running {
            Some(pid) => TenantNext::Stop(Some((pid, cat4("stopped ", tenant, "/", name)))),
            None => TenantNext::Stop(None),
        },
        TenantAction::Status => match running {
            Some(pid) => TenantNext::Say(
                cat5("  ", name, ": running (pid ", decimal_of(pid as u64).as_str(), ")"),
            ),
            None => TenantNext::Say(cat3("  ", name, ": down")),
        },
        TenantAction::Up => match running {
            Some(pid) => TenantNext::Say(
                cat5("  ", name, ": already running (pid ", decimal_of(pid as u64).as_str(), ")"),
            ),
            None => TenantNext::Launch,
        },
    }
}

/// What a tenant's service is launched with: what the manifest renders for
/// it, if it declares the service, and for the console its manifest.
pub fn tenant_environment(name: &str, rendered: Option<&str>, manifest: &str) -> (r: Vec<
    (String, String),
>)
    ensures
        environment::pair_views(r@) == (match rendered {
            Some(text) => environment::environment(text@),
            None => seq![],
        }) + if name@ == "console"@ {
            seq![("UNIDPP_CONSOLE_MANIFEST"@, manifest@)]
        } else {
            seq![]
        },
{
    let mut list: Vec<(String, String)> = match rendered {
        Some(text) => environment_of(text),
        None => Vec::new(),
    };
    let ghost base = environment::pair_views(list@);
    assert(rendered is None ==> base =~= seq![]);
    if same_text(name, "console") {
        push_pair(&mut list, "UNIDPP_CONSOLE_MANIFEST", manifest);
        assert(environment::pair_views(list@) =~= base + seq![
            ("UNIDPP_CONSOLE_MANIFEST"@, manifest@),
        ]);
    } else {
        assert(environment::pair_views(list@) =~= base + seq![]);
    }
    list
}

// ---------------------------------------------------------------------------
// What holds of the tables.
// ---------------------------------------------------------------------------

proof fn lemma_stems()
    ensures
        "tunnel"@ != "jp-tunnel"@,
        "tunnel"@ != "console-tunnel"@,
        "tunnel"@ != "trust-tunnel"@,
        "tunnel"@ != "log-tunnel"@,
        "jp-tunnel"@ != "console-tunnel"@,
        "jp-tunnel"@ != "trust-tunnel"@,
        "jp-tunnel"@ != "log-tunnel"@,
        "console-tunnel"@ != "trust-tunnel"@,
        "console-tunnel"@ != "log-tunnel"@,
        "trust-tunnel"@ != "log-tunnel"@,
{
    reveal_strlit("tunnel");
    reveal_strlit("jp-tunnel");
    reveal_strlit("console-tunnel");
    reveal_strlit("trust-tunnel");
    reveal_strlit("log-tunnel");
    assert("tunnel"@.len() == 6);
    assert("jp-tunnel"@.len() == 9);
    assert("console-tunnel"@.len() == 14);
    assert("trust-tunnel"@.len() == 12);
    assert("log-tunnel"@.len() == 10);
}

/// A tunnel leads to the service that its hostname names: its port is the one
/// of that service's row.
pub proof fn law_tunnels_lead_to_their_services(pilot: Pilot, tsa: Seq<char>, i: int, j: int)
    requires
        0 <= i < tunnel_table().len(),
        0 <= j < services::service_table(pilot, tsa).len(),
    ensures
        ({
            let t = tunnel_table()[i];
            let row = services::service_table(pilot, tsa)[j];
            &&& t.stem == "tunnel"@ <==> t.host == "registry.unidpp.org"@
            &&& t.stem == "jp-tunnel"@ <==> t.host == "registry-jp.unidpp.org"@
            &&& t.stem == "console-tunnel"@ <==> t.host == "console.unidpp.org"@
            &&& t.stem == "trust-tunnel"@ <==> t.host == "trust.unidpp.org"@
            &&& t.stem == "log-tunnel"@ <==> t.host == "log.unidpp.org"@
            &&& t.stem == "tunnel"@ && row.name == "registry"@ ==> t.port == row.port
            &&& t.stem == "jp-tunnel"@ && row.name == "jp-registry"@ ==> t.port == row.port
            &&& t.stem == "console-tunnel"@ && row.name == "console"@ ==> t.port == row.port
            &&& t.stem == "trust-tunnel"@ && row.name == "trust"@ ==> t.port == row.port
            &&& t.stem == "log-tunnel"@ && row.name == "log"@ ==> t.port == row.port
        }),
        exists|k: int|
            0 <= k < services::service_table(pilot, tsa).len() && (
            #[trigger] services::service_table(pilot, tsa)[k]).port == tunnel_table()[i].port,
{
    lemma_stems();
    services::lemma_names(pilot, tsa);
    reveal_strlit("registry.unidpp.org");
    reveal_strlit("registry-jp.unidpp.org");
    reveal_strlit("console.unidpp.org");
    reveal_strlit("trust.unidpp.org");
    reveal_strlit("log.unidpp.org");
    assert("registry.unidpp.org"@.len() == 19);
    assert("registry-jp.unidpp.org"@.len() == 22);
    assert("console.unidpp.org"@.len() == 18);
    assert("trust.unidpp.org"@.len() == 16);
    assert("log.unidpp.org"@.len() == 14);
    let rows = services::service_table(pilot, tsa);
    assert(rows[0].port == 8390);
    assert(rows[1].port == 8391);
    assert(rows[2].port == 8392);
    assert(rows[8].port == 8389);
    assert(rows[9].port == 8399);
}

/// The registry, its peer, the console, the trust service and the log each have
/// a tunnel, and no two tunnels share a pid file, a hostname or a port.
pub proof fn law_tunnels_are_apart(i: int, j: int)
    requires
        0 <= i < j < tunnel_table().len(),
    ensures
        tunnel_table()[i].stem != tunnel_table()[j].stem,
        tunnel_table()[i].host != tunnel_table()[j].host,
        tunnel_table()[i].port != tunnel_table()[j].port,
        tunnel_table().len() == 5,
{
    lemma_stems();
    reveal_strlit("registry.unidpp.org");
    reveal_strlit("registry-jp.unidpp.org");
    reveal_strlit("console.unidpp.org");
    reveal_strlit("trust.unidpp.org");
    reveal_strlit("log.unidpp.org");
    assert("registry.unidpp.org"@.len() == 19);
    assert("registry-jp.unidpp.org"@.len() == 22);
    assert("console.unidpp.org"@.len() == 18);
    assert("trust.unidpp.org"@.len() == 16);
    assert("log.unidpp.org"@.len() == 14);
}

/// What was started is stopped: every service of the table and every tunnel is
/// among what is stopped, and nothing else is.
pub proof fn law_whatever_is_started_is_stopped(
    pilot: Pilot,
    tsa: Seq<char>,
    i: int,
    j: int,
    k: int,
)
    requires
        0 <= i < services::service_table(pilot, tsa).len(),
        0 <= j < tunnel_table().len(),
        0 <= k < down_order().len(),
    ensures
        down_order().contains(services::service_table(pilot, tsa)[i].name),
        down_order().contains(tunnel_table()[j].stem),
        down_order().len() == services::service_table(pilot, tsa).len() + tunnel_table().len(),
        (exists|m: int|
            0 <= m < services::service_table(pilot, tsa).len() && (
            #[trigger] services::service_table(pilot, tsa)[m]).name == down_order()[k]) || exists|
            m: int,
        |
            0 <= m < tunnel_table().len() && (#[trigger] tunnel_table()[m]).stem
                == down_order()[k],
{
    let d = down_order();
    let rows = services::service_table(pilot, tsa);
    let t = tunnel_table();
    assert(d[8] == rows[0].name);
    assert(d[7] == rows[1].name);
    assert(d[6] == rows[2].name);
    assert(d[5] == rows[3].name);
    assert(d[4] == rows[4].name);
    assert(d[3] == rows[5].name);
    assert(d[1] == rows[6].name);
    assert(d[2] == rows[7].name);
    assert(d[0] == rows[8].name);
    assert(d[9] == rows[9].name);
    assert(d[10] == t[0].stem);
    assert(d[11] == t[1].stem);
    assert(d[12] == t[2].stem);
    assert(d[13] == t[3].stem);
    assert(d[14] == t[4].stem);
}

/// Who leans on another service starts after it and stops before it: the issuer
/// and the projector lean on the registry, and the archive leans on the log.
pub proof fn law_services_outlive_those_who_lean_on_them(
    pilot: Pilot,
    tsa: Seq<char>,
    i: int,
    j: int,
)
    requires
        0 <= i < services::service_table(pilot, tsa).len(),
        0 <= j < services::service_table(pilot, tsa).len(),
        ({
            let user = services::service_table(pilot, tsa)[i].name;
            let used = services::service_table(pilot, tsa)[j].name;
            ||| (user == "issuer"@ || user == "projector"@) && used == "registry"@
            ||| user == "archive"@ && used == "log"@
        }),
    ensures
        j < i,
        exists|a: int, b: int|
            0 <= a < b < down_order().len() && #[trigger] down_order()[a]
                == services::service_table(pilot, tsa)[i].name && #[trigger] down_order()[b]
                == services::service_table(pilot, tsa)[j].name,
{
    services::lemma_names(pilot, tsa);
    let d = down_order();
    assert(d[1] == "archive"@);
    assert(d[4] == "projector"@);
    assert(d[5] == "issuer"@);
    assert(d[6] == "log"@);
    assert(d[8] == "registry"@);
}

/// A tenant's services are a registry, an issuer and a console, and they run the
/// programs that the pilot's services of these names run.
pub proof fn law_tenants_run_the_programs_of_the_pilot(
    pilot: Pilot,
    tsa: Seq<char>,
    i: int,
    j: int,
)
    requires
        0 <= i < tenant_table().len(),
        0 <= j < services::service_table(pilot, tsa).len(),
    ensures
        tenant_table()[i].0 == services::service_table(pilot, tsa)[j].name
            ==> tenant_table()[i].1 == services::service_table(pilot, tsa)[j].repo,
        exists|k: int|
            0 <= k < services::service_table(pilot, tsa).len() && (
            #[trigger] services::service_table(pilot, tsa)[k]).name == tenant_table()[i].0,
        exists|k: int| 0 <= k < tenant_table().len() && (#[trigger] tenant_table()[k]).0
            == "registry"@,
        exists|k: int| 0 <= k < tenant_table().len() && (#[trigger] tenant_table()[k]).0
            == "issuer"@,
        exists|k: int| 0 <= k < tenant_table().len() && (#[trigger] tenant_table()[k]).0
            == "console"@,
        tenant_table().len() == 3,
{
    services::lemma_names(pilot, tsa);
    let rows = services::service_table(pilot, tsa);
    assert(rows[0].name == "registry"@);
    assert(rows[3].name == "issuer"@);
    assert(rows[8].name == "console"@);
    assert(tenant_table()[0].0 == "registry"@);
    assert(tenant_table()[1].0 == "issuer"@);
    assert(tenant_table()[2].0 == "console"@);
}

/// Where nothing else is said, the peer is seeded where it listens; and what it
/// is seeded with are an item and a binding of the pilot's seed, each sent to
/// where documents of its drawer are sent.
pub proof fn law_the_peer_is_seeded_where_it_listens(pilot: Pilot, tsa: Seq<char>, i: int)
    requires
        0 <= i < services::service_table(pilot, tsa).len(),
        services::service_table(pilot, tsa)[i].name == "jp-registry"@,
    ensures
        jp_port(None) == services::service_table(pilot, tsa)[i].port,
        jp_data().len() == 2,
        jp_data()[0].path == walkthrough::route(Drawer::Items),
        jp_data()[0].file == walkthrough::folder(Drawer::Items)
            + "/profile-jp-road-traffic.json"@,
        jp_data()[1].path == walkthrough::route(Drawer::Bindings),
        jp_data()[1].file == walkthrough::folder(Drawer::Bindings)
            + "/profile-jp-road-traffic-on-momiji-e8.json"@,
{
    services::lemma_names(pilot, tsa);
    reveal_strlit("seed/items");
    reveal_strlit("seed/bindings");
    reveal_strlit("/profile-jp-road-traffic.json");
    reveal_strlit("/profile-jp-road-traffic-on-momiji-e8.json");
    reveal_strlit("seed/items/profile-jp-road-traffic.json");
    reveal_strlit("seed/bindings/profile-jp-road-traffic-on-momiji-e8.json");
    assert("seed/items"@ + "/profile-jp-road-traffic.json"@
        =~= "seed/items/profile-jp-road-traffic.json"@);
    assert("seed/bindings"@ + "/profile-jp-road-traffic-on-momiji-e8.json"@
        =~= "seed/bindings/profile-jp-road-traffic-on-momiji-e8.json"@);
}

} // verus!
