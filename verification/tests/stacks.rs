//! The pilot's orchestration.

use unidpp_ops::cli::{ops_command, stack_command, OpsCommand, StackCommand, STACK_USAGE, USAGE};
use unidpp_ops::http::HttpText;
use unidpp_ops::plan::{Ending, Plan, Step};
use unidpp_ops::services::{
    rendered_services, service_environment, services, Pilot, Rendered, ServiceSpec,
};
use unidpp_ops::stack::{
    begin_build, begin_seed_jp, begin_tenant, begin_up, begin_wait, cmd_down, cmd_seed_jp,
    cmd_status, cmd_tenant, cmd_up, discovery_paths, down_names, end_build, ensure_named_tunnel,
    healthy, is_ours, jp_node_port, jp_seeds, json_count, log_line, needs_build, preserved_line,
    probe_version, process_to_stop, public_code, registry_line, seeded_line, service_id,
    start_service, tenant_environment, tenant_heading, tenant_services, tunnel_args, tunnels,
    version_paths, wait_step, Launch, Standing, TenantAction, TenantNext, TunnelChoice,
    TunnelStanding, Wait,
};

fn words(items: &[&str]) -> Vec<String> {
    items.iter().map(|s| s.to_string()).collect()
}

fn pilot() -> Pilot {
    Pilot { dir: "/p".to_string(), family: "/f".to_string() }
}

fn answer(status: u16, body: &str) -> Option<HttpText> {
    Some(HttpText { status, body: body.to_string() })
}

fn said(plan: &Plan) -> Vec<String> {
    plan.steps
        .iter()
        .map(|step| match step {
            Step::Say(t) => t.clone(),
            Step::MakeDir { path, .. } => format!("mkdir {}", path),
            Step::RemoveFile { path } => format!("rm {}", path),
            _ => "other".to_string(),
        })
        .collect()
}

fn row(name: &str) -> ServiceSpec {
    services(&pilot(), None).into_iter().find(|s| s.name == name).unwrap()
}

#[test]
fn a_pilot_has_its_places() {
    assert_eq!(pilot().run_dir(), "/p/run");
    assert_eq!(pilot().manifest(), "/p/unidpp-operator.yaml");
    assert_eq!(pilot().bin("unidpp-log"), "/f/unidpp-log/target/release/unidpp-log");
}

#[test]
fn the_service_table_has_ten_rows() {
    let table = services(&pilot(), Some("http://tsa"));
    let seen: Vec<(String, u16)> = table.iter().map(|s| (s.name.clone(), s.port)).collect();
    let expected: Vec<(String, u16)> = [
        ("registry", 8390),
        ("trust", 8391),
        ("log", 8392),
        ("issuer", 8393),
        ("projector", 8394),
        ("gateway", 8395),
        ("archive", 8396),
        ("hub", 8397),
        ("console", 8389),
        ("jp-registry", 8399),
    ]
    .iter()
    .map(|(n, p)| (n.to_string(), *p))
    .collect();
    assert_eq!(seen, expected);
    assert_eq!(table[9].repo, "unidpp-registry");
}

#[test]
fn a_service_gets_its_environment() {
    let shown = |spec: &ServiceSpec, rendered: Vec<Rendered>| {
        service_environment(&pilot(), spec, &rendered)
            .into_iter()
            .map(|(k, v)| format!("{}={}", k, v))
            .collect::<Vec<String>>()
    };
    assert_eq!(
        shown(&row("log"), vec![]),
        words(&[
            "UNIDPP_LOG_BIND=127.0.0.1:8392",
            "UNIDPP_LOG_ID=unidpp-pilot-log-1",
            "UNIDPP_LOG_STATE_FILE=/p/run/log-journal.jsonl",
            "UNIDPP_LOG_EXTERNAL_TSA_URL=http://timestamp.digicert.com",
        ])
    );
    assert_eq!(rendered_services(&row("gateway")), words(&["gateway"]));
    assert!(rendered_services(&row("log")).is_empty());
    let manifest =
        Rendered { service: "gateway".to_string(), text: "UNIDPP_GATEWAY_BIND=x:1\nA=b".to_string() };
    assert_eq!(
        shown(&row("gateway"), vec![manifest]),
        words(&["UNIDPP_GATEWAY_BIND=x:1", "A=b"])
    );
}

#[test]
fn a_listener_names_itself() {
    assert!(healthy(&answer(200, "")));
    assert!(!healthy(&answer(204, "")));
    assert!(!healthy(&None));
    let id = |a: Option<HttpText>, b: Option<HttpText>| service_id(&vec![a, b]);
    assert_eq!(id(answer(200, r#"{"service":"a"}"#), None), Some("a".to_string()));
    assert_eq!(
        id(answer(404, r#"{"service":"a"}"#), answer(200, r#"{"service":"b"}"#)),
        Some("b".to_string())
    );
    assert_eq!(
        id(answer(200, r#"{"service":""}"#), answer(200, r#"{"service":"b"}"#)),
        Some("b".to_string())
    );
    assert_eq!(id(answer(200, "x"), answer(200, r#"{"service":1}"#)), None);
    assert!(is_ours(&answer(200, ""), Some("r"), "r"));
    assert!(!is_ours(&answer(200, ""), Some("q"), "r"));
    assert!(!is_ours(&answer(200, ""), None, "r"));
    assert!(!is_ours(&None, Some("r"), "r"));
    assert_eq!(discovery_paths(), words(&["/", "/.well-known/unidpp-service"]));
    assert_eq!(version_paths(), words(&["/.well-known/unidpp-service", "/"]));
}

#[test]
fn the_healthy_is_adopted_and_the_foreign_refused() {
    let log = row("log");
    match start_service(&log, true, true, Some("x")) {
        Launch::Adopt(t) => {
            assert_eq!(t, "==> log already healthy on http://127.0.0.1:8392 (reusing)")
        }
        _ => panic!("not adopted"),
    }
    match start_service(&log, false, true, Some("kit")) {
        Launch::Refuse(t) => assert_eq!(
            t,
            "port 8392 is held by 'kit' but 'unidpp-log' needs it — stop it first"
        ),
        _ => panic!("not refused"),
    }
    match start_service(&log, false, true, None) {
        Launch::Refuse(t) => assert!(t.contains("held by '?'")),
        _ => panic!("not refused"),
    }
    match start_service(&log, false, false, None) {
        Launch::Start(t) => assert_eq!(t, "==> starting log on http://127.0.0.1:8392"),
        _ => panic!("not started"),
    }
}

#[test]
fn a_start_is_waited_for() {
    let log = row("log");
    assert!(matches!(begin_wait(&log, 120), Wait::Again(120)));
    assert!(matches!(wait_step(&log, 2, true, false), Wait::Ready));
    assert!(matches!(wait_step(&log, 2, false, true), Wait::Again(1)));
    match wait_step(&log, 1, false, true) {
        Wait::Die(t) => assert_eq!(
            t,
            "log did not become healthy on http://127.0.0.1:8392 (see run/log.log)"
        ),
        _ => panic!("still waiting"),
    }
    match wait_step(&log, 5, false, false) {
        Wait::Die(t) => assert_eq!(t, "log exited during startup (see run/log.log)"),
        _ => panic!("still waiting"),
    }
    assert!(matches!(begin_wait(&log, 0), Wait::Die(_)));
}

#[test]
fn a_program_is_built_where_it_is_missing() {
    assert!(!needs_build(true, None));
    assert!(!needs_build(true, Some("0")));
    assert!(needs_build(true, Some("1")));
    assert!(needs_build(false, None));
    assert_eq!(begin_build("r", "/b", true).ok().unwrap(), "==> building r (release)");
    assert_eq!(
        begin_build("r", "/b", false).err().unwrap(),
        "cargo not found and no prebuilt binary at /b"
    );
    assert!(end_build("/b", true, true).is_ok());
    assert_eq!(
        end_build("/b", true, false).err().unwrap(),
        "build finished but /b is missing"
    );
    assert!(end_build("/b", false, true).is_err());
}

#[test]
fn a_tunnel_is_ensured() {
    let all = tunnels();
    assert_eq!(all.len(), 5);
    let line = |token: bool, running: Option<u32>, installed: bool| {
        match ensure_named_tunnel(&all[1], token, running, installed) {
            TunnelChoice::Skip(t) => format!("skip {}", t),
            TunnelChoice::Start(t) => format!("start {}", t),
        }
    };
    assert_eq!(
        line(false, Some(1), true),
        "skip ==> no jp-tunnel.token — registry-jp.unidpp.org stays loopback-only"
    );
    assert_eq!(line(true, Some(7), false), "skip ==> jp-tunnel: already running (pid 7)");
    assert_eq!(
        line(true, None, false),
        "skip ==> jp-tunnel.token present but cloudflared is not installed — skipping"
    );
    assert_eq!(
        line(true, None, true),
        "start ==> starting cloudflared named tunnel (registry-jp.unidpp.org -> 8399)"
    );
    assert_eq!(
        tunnel_args(" secret\n", 8399),
        words(&["tunnel", "run", "--token", "secret", "--url", "http://127.0.0.1:8399"])
    );
}

#[test]
fn the_stack_goes_up() {
    assert_eq!(said(&begin_up(&pilot())), words(&["mkdir /p/run", "mkdir /p/passports"]));
    let end = said(&cmd_up());
    assert_eq!(end.len(), 5);
    assert_eq!(end[0], "");
    assert_eq!(end[4], "==> next: unidpp-stack seed-jp   (idempotent)");
}

#[test]
fn the_stack_goes_down_by_pid_files() {
    assert_eq!(down_names().len(), 15);
    assert_eq!(process_to_stop("12\n"), Some(12));
    assert_eq!(process_to_stop("0"), None);
    assert_eq!(process_to_stop("x"), None);
    assert_eq!(
        said(&cmd_down("/p/run", "log", "12\n", Some(true))),
        words(&["==> log stopped (pid 12)", "rm /p/run/log.pid"])
    );
    assert_eq!(
        said(&cmd_down("/p/run", "log", "12", Some(false)))[0],
        "==> log pid 12 not stopping"
    );
    assert_eq!(
        said(&cmd_down("/p/run", "log", "x", None))[0],
        "==> log pid x not running (stale pid file)"
    );
    assert_eq!(
        preserved_line(),
        "==> journals preserved (registry-journal.jsonl, run/*-journal.jsonl)"
    );
}

fn standing(name: &str, ours: bool, taken: bool, holder: Option<&str>) -> Standing {
    Standing {
        spec: row(name),
        ours,
        version: "1.2".to_string(),
        taken,
        holder: holder.map(|h| h.to_string()),
    }
}

fn tunnel_standing(code: Option<&str>) -> TunnelStanding {
    TunnelStanding {
        stem: "tunnel".to_string(),
        host: "h.org".to_string(),
        code: code.map(|c| c.to_string()),
    }
}

#[test]
fn the_status_tells_the_truth() {
    let good = cmd_status(
        &vec![standing("log", true, true, None)],
        Some("  registry".to_string()),
        None,
        &vec![tunnel_standing(Some("200")), tunnel_standing(None)],
    );
    assert!(matches!(good.ending, Ending::Done));
    assert_eq!(
        said(&good.plan),
        words(&[
            "  log        (unidpp-log)       http://127.0.0.1:8392  healthy  v1.2",
            "  registry",
            "  tunnel: running -> https://h.org (public 200)",
            "  tunnel: not running (h.org dark)",
        ])
    );
    let held = cmd_status(
        &vec![standing("jp-registry", false, true, Some("kit"))],
        None,
        Some("  log".to_string()),
        &vec![],
    );
    assert!(matches!(held.ending, Ending::Fail));
    assert_eq!(
        said(&held.plan)[0],
        "  jp-registry (unidpp-registry)  http://127.0.0.1:8399  HELD BY kit"
    );
    let down = cmd_status(&vec![standing("hub", false, false, None)], None, None, &vec![]);
    assert!(matches!(down.ending, Ending::Fail));
    assert_eq!(
        said(&down.plan)[0],
        "  hub        (unidpp-hub)       http://127.0.0.1:8397  DOWN"
    );
    let dark = cmd_status(&vec![], None, None, &vec![tunnel_standing(Some("502"))]);
    assert!(matches!(dark.ending, Ending::Fail));
    assert_eq!(
        said(&dark.plan),
        words(&["  tunnel: running -> https://h.org (public 502 — origin unreachable?)"])
    );
}

#[test]
fn the_status_reads_the_services() {
    assert_eq!(
        probe_version(&vec![answer(200, r#"{"version":"3"}"#), None]),
        "3"
    );
    assert_eq!(
        probe_version(&vec![answer(500, r#"{"version":"3"}"#), answer(200, r#"{"version":""}"#)]),
        ""
    );
    assert_eq!(probe_version(&vec![None, answer(200, "{}")]), "?");
    assert_eq!(json_count(&answer(200, r#"{"items":[1,2]}"#), "items"), "2");
    assert_eq!(json_count(&answer(200, r#"{"items":1}"#), "items"), "?");
    assert_eq!(json_count(&None, "items"), "?");
    assert_eq!(
        registry_line(&answer(200, r#"{"items":[]}"#), &None),
        "  registry journal: 0 items, ? discovery services"
    );
    assert_eq!(
        log_line(&answer(500, r#"{"tree_size":9}"#)),
        Some("  log tree head: size 9".to_string())
    );
    assert_eq!(
        log_line(&answer(200, r#"{"tree_size":"9"}"#)),
        Some("  log tree head: size 0".to_string())
    );
    assert_eq!(log_line(&answer(200, "x")), None);
    assert_eq!(log_line(&None), None);
    assert_eq!(public_code(&Some(b" 200\n".to_vec())), "200");
    assert_eq!(public_code(&None), "?");
}

#[test]
fn the_peer_is_seeded() {
    assert_eq!(jp_node_port(None), 8399);
    assert_eq!(jp_node_port(Some("http://127.0.0.1:9000")), 9000);
    assert_eq!(jp_node_port(Some("http://127.0.0.1:9000/")), 8399);
    assert_eq!(jp_node_port(Some("70000")), 8399);
    assert!(begin_seed_jp(&answer(200, "")).is_ok());
    assert_eq!(
        begin_seed_jp(&None).err().unwrap(),
        "JP node not healthy (run: unidpp-stack up)"
    );
    let seeds = jp_seeds();
    assert_eq!(seeds.len(), 2);
    assert_eq!(
        cmd_seed_jp(&seeds[0], &answer(201, "")).ok().unwrap(),
        "  [ok]   jp-road-traffic profile registered"
    );
    assert_eq!(
        cmd_seed_jp(&seeds[1], &answer(409, "")).ok().unwrap(),
        "  [skip] jp-road-traffic binding already present"
    );
    assert_eq!(
        cmd_seed_jp(&seeds[1], &answer(500, "")).err().unwrap(),
        "jp-road-traffic binding: POST /applicability returned 500"
    );
    assert_eq!(
        cmd_seed_jp(&seeds[0], &None).err().unwrap(),
        "jp-road-traffic profile: no answer"
    );
    assert!(seeded_line().starts_with("JP node seeded: 1 profile"));
}

#[test]
fn a_tenant_is_run() {
    assert!(begin_tenant("/m", true).is_ok());
    assert_eq!(begin_tenant("/m", false).err().unwrap(), "no manifest at /m");
    assert_eq!(tenant_heading("acme", &TenantAction::Stop), "tenant acme (stop):");
    assert_eq!(tenant_services().len(), 3);
    let next = |action: TenantAction, running: Option<u32>| {
        match cmd_tenant(&action, "acme", "issuer", running) {
            TenantNext::Say(t) => format!("say {}", t),
            TenantNext::Stop(Some((pid, t))) => format!("stop {} {}", pid, t),
            TenantNext::Stop(None) => "forget".to_string(),
            TenantNext::Launch => "launch".to_string(),
        }
    };
    assert_eq!(next(TenantAction::Up, None), "launch");
    assert_eq!(next(TenantAction::Up, Some(3)), "say   issuer: already running (pid 3)");
    assert_eq!(next(TenantAction::Status, Some(3)), "say   issuer: running (pid 3)");
    assert_eq!(next(TenantAction::Status, None), "say   issuer: down");
    assert_eq!(next(TenantAction::Stop, Some(3)), "stop 3 stopped acme/issuer");
    assert_eq!(next(TenantAction::Stop, None), "forget");
    assert_eq!(
        tenant_environment("console", Some("A=1"), "/m"),
        vec![
            ("A".to_string(), "1".to_string()),
            ("UNIDPP_CONSOLE_MANIFEST".to_string(), "/m".to_string()),
        ]
    );
    assert!(tenant_environment("issuer", None, "/m").is_empty());
}

fn ops(args: &[&str]) -> String {
    match ops_command(&words(args)) {
        OpsCommand::Backup { named } => format!("backup {:?}", named),
        OpsCommand::Restore { archive, tenant, force } => {
            format!("restore {} {} {}", archive, tenant, force)
        }
        OpsCommand::Verify { archive } => format!("verify {}", archive),
        OpsCommand::Schedule { args } => format!("schedule {:?}", args),
        OpsCommand::Prune { args } => format!("prune {:?}", args),
        OpsCommand::Drill { arg } => format!("drill {:?}", arg),
        OpsCommand::Bundle { args } => format!("bundle {:?}", args),
        OpsCommand::Rehearse => "rehearse".to_string(),
        OpsCommand::Recover { archive, force } => format!("recover {} {}", archive, force),
        OpsCommand::Decommission { tenant } => format!("decommission {}", tenant),
        OpsCommand::Die(m) => format!("die {}", m),
        OpsCommand::Usage => "usage".to_string(),
    }
}

#[test]
fn the_operations_are_asked_for() {
    assert_eq!(ops(&[]), "usage");
    assert_eq!(ops(&["help"]), "usage");
    assert_eq!(ops(&["backup"]), "backup None");
    assert_eq!(ops(&["backup", ""]), "backup None");
    assert_eq!(ops(&["backup", "acme"]), "backup Some(\"acme\")");
    assert_eq!(ops(&["restore", "a", "t"]), "restore a t false");
    assert_eq!(ops(&["restore", "a", "t", ""]), "restore a t false");
    assert_eq!(ops(&["restore", "a", "t", "--force", "x"]), "restore a t true");
    assert_eq!(ops(&["restore", "a"]), "die usage: restore <archive> <name> [--force]");
    assert_eq!(
        ops(&["restore", "a", "t", "x"]),
        "die usage: restore <archive> <name> [--force]"
    );
    assert_eq!(ops(&["verify", "a"]), "verify a");
    assert_eq!(ops(&["verify"]), "die usage: verify <archive>");
    assert_eq!(ops(&["schedule", "--status"]), "schedule [\"--status\"]");
    assert_eq!(ops(&["prune"]), "prune []");
    assert_eq!(ops(&["drill"]), "drill None");
    assert_eq!(ops(&["drill", "--keep"]), "drill Some(\"--keep\")");
    assert_eq!(ops(&["bundle", "acme", "--data-only"]), "bundle [\"acme\", \"--data-only\"]");
    assert_eq!(ops(&["bundle"]), "die usage: bundle <tenant> [--data-only] [--out dir]");
    assert_eq!(ops(&["rehearse-upgrade"]), "rehearse");
    assert_eq!(ops(&["recover", "a"]), "recover a false");
    assert_eq!(ops(&["recover", "a", "--force"]), "recover a true");
    assert_eq!(ops(&["recover"]), "die usage: recover <archive> [--force]");
    assert_eq!(ops(&["recover", "a", "b"]), "die usage: recover <archive> [--force]");
    assert_eq!(ops(&["decommission", "acme"]), "decommission acme");
    assert_eq!(ops(&["decommission"]), "die usage: decommission <tenant>");
    assert!(USAGE.starts_with("unidpp-ops — deployment backup and restore"));
}

fn stack(args: &[&str]) -> String {
    match stack_command(&words(args)) {
        StackCommand::Up => "up".to_string(),
        StackCommand::Down => "down".to_string(),
        StackCommand::Status => "status".to_string(),
        StackCommand::SeedJp => "seed".to_string(),
        StackCommand::Tenant(t, TenantAction::Up) => format!("{} up", t),
        StackCommand::Tenant(t, TenantAction::Stop) => format!("{} stop", t),
        StackCommand::Tenant(t, TenantAction::Status) => format!("{} status", t),
        StackCommand::Die(m) => {
            assert_eq!(m, STACK_USAGE);
            "usage".to_string()
        }
    }
}

#[test]
fn the_stack_is_asked_for() {
    assert_eq!(stack(&[]), "usage");
    assert_eq!(stack(&["x"]), "usage");
    assert_eq!(stack(&["up"]), "up");
    assert_eq!(stack(&["start"]), "up");
    assert_eq!(stack(&["down"]), "down");
    assert_eq!(stack(&["stop"]), "down");
    assert_eq!(stack(&["status"]), "status");
    assert_eq!(stack(&["seed-jp"]), "seed");
    assert_eq!(stack(&["tenant"]), "usage");
    assert_eq!(stack(&["tenant", "acme"]), "acme up");
    assert_eq!(stack(&["tenant", "acme", "start"]), "acme up");
    assert_eq!(stack(&["tenant", "acme", "up"]), "acme up");
    assert_eq!(stack(&["tenant", "acme", "down"]), "acme stop");
    assert_eq!(stack(&["tenant", "acme", "stop"]), "acme stop");
    assert_eq!(stack(&["tenant", "acme", "status"]), "acme status");
    assert_eq!(stack(&["tenant", "acme", "x"]), "usage");
}
