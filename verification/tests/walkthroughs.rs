//! The walkthrough seed.

use unidpp_ops::digest::sha256_hex;
use unidpp_ops::http::HttpText;
use unidpp_ops::json::{parse_json, parse_or_null, text_of_path};
use unidpp_ops::plan::{Fault, Plan, Step};
use unidpp_ops::seed::{
    beginning_of, counts_of, creation_body, encode, event_body, event_token, expect_created,
    snapshot_body, sorted_artifacts, sorted_json_files, sorted_profiles,
};
use unidpp_ops::services::Pilot;
use unidpp_ops::walkthrough::{
    on_artifacts, on_clock, on_document, on_drawer, on_reply, on_tool, on_verdict, run, After,
    Awaiting, Drawer, Turn,
};

fn texts(items: &[&str]) -> Vec<String> {
    items.iter().map(|s| s.to_string()).collect()
}

fn place() -> Pilot {
    Pilot { dir: "/p".to_string(), family: "/f".to_string() }
}

fn gave(status: u16, body: &str) -> Option<HttpText> {
    Some(HttpText { status, body: body.to_string() })
}

fn done(plan: &Plan) -> Vec<String> {
    plan.steps
        .iter()
        .map(|step| match step {
            Step::Say(t) => t.clone(),
            Step::MakeDir { path, .. } => format!("mkdir {}", path),
            Step::Write { path, text, fault } => format!(
                "write {} {} {}",
                path,
                text,
                match fault {
                    Fault::Die(m) => m.clone(),
                    Fault::Panic => "!".to_string(),
                    Fault::Ignore => "".to_string(),
                }
            ),
            _ => "other".to_string(),
        })
        .collect()
}

fn asked(turn: &Turn) -> String {
    match &turn.after {
        After::Call(call, _) => match &call.body {
            Some(body) => format!("post {} {} {}", call.port, call.path, body),
            None => format!("get {} {}", call.port, call.path),
        },
        After::FindTool(p) => format!("find {}", p),
        After::ListDrawer { dir, .. } => format!("list {}", dir),
        After::ListArtifacts(p) => format!("artifacts {}", p),
        After::Read { path, .. } => format!("read {}", path),
        After::Clock => "clock".to_string(),
        After::RunTool { program, args, .. } => format!("run {} {}", program, args.join(" ")),
        After::Done => "done".to_string(),
        After::Die(m) => format!("die {}", m),
        After::Panic(m) => format!("panic {}", m),
    }
}

fn reply(awaiting: Awaiting, answer: Option<HttpText>) -> (Vec<String>, String) {
    let turn = on_reply(&place(), awaiting, answer);
    (done(&turn.plan), asked(&turn))
}

#[test]
fn values_ride_urls() {
    assert_eq!(
        encode("urn:unidpp:passport:pilot-e8-j000842"),
        "urn%3Aunidpp%3Apassport%3Apilot-e8-j000842"
    );
    assert_eq!(encode("aZ09-._~"), "aZ09-._~");
    assert_eq!(encode("é/ %\u{1}"), "%C3%A9%2F%20%25%01");
    assert_eq!(encode(""), "");
}

#[test]
fn unexpected_answers_are_cut() {
    let long = "é".repeat(301);
    assert_eq!(beginning_of(&long, 300), "é".repeat(300));
    assert_eq!(beginning_of("ab", 2), "ab");
    let answer = HttpText { status: 500, body: long };
    let complaint = expect_created("POST /x", answer, &[200, 201]).err().unwrap();
    assert_eq!(complaint, format!("POST /x -> 500: {}", "é".repeat(300)));
    let good = HttpText { status: 201, body: "b".to_string() };
    assert_eq!(expect_created("l", good, &[200, 201]).ok().unwrap().body, "b");
}

#[test]
fn profiles_come_sorted_and_once() {
    let doc = parse_or_null(
        r#"{"applicability":[{"binding":{"profile_item":"jp"}},{"binding":{"profile_item":"eu"}},{"binding":{"profile_item":"jp"}},{}]}"#,
    );
    assert_eq!(sorted_profiles(&doc), texts(&["?", "eu", "jp"]));
    assert!(sorted_profiles(&parse_or_null("[]")).is_empty());
    assert!(sorted_profiles(&parse_or_null(r#"{"applicability":{}}"#)).is_empty());
}

#[test]
fn files_are_picked_by_name() {
    assert_eq!(
        sorted_json_files(&texts(&["b.json", ".json", "a.json", "a.jsonl", "c.txt"])),
        texts(&["a.json", "b.json"])
    );
    assert_eq!(
        sorted_artifacts(&texts(&["pack.hex", "02.json", "x.log", "00.json"])),
        texts(&["00.json", "02.json", "pack.hex"])
    );
}

#[test]
fn counts_are_listed() {
    assert_eq!(
        counts_of(&parse_or_null(r#"{"counts":{"units":10,"services":8,"n":"x"}}"#)),
        "n=\"x\", services=8, units=10"
    );
    assert_eq!(counts_of(&parse_or_null("{}")), "");
}

#[test]
fn the_passport_is_created_from_its_document() {
    assert_eq!(
        creation_body(),
        r#"{"capability":"S2","config":["urn:unidpp:profile:eu-machinery-battery","urn:unidpp:profile:jp-road-traffic"],"eo_id":"urn:unidpp:actor:momiji-mobility","identity":"local:momiji:e8/J-000842","passport_id":"urn:unidpp:passport:pilot-e8-j000842","resolver_uri":"https://resolver.unidpp.org/r/pilot-e8-j000842","type_ref":"momiji:e8"}"#
    );
}

#[test]
fn the_events_are_five() {
    assert_eq!(
        event_body(0, "now"),
        r#"{"actor":"momiji-mobility","actor_role":"issuing authority","at":"2026-07-14T08:00:00Z","data":{"Issuance":{"derived":false,"inputs":[]}},"type":"issuance"}"#
    );
    assert_eq!(
        event_body(1, "now"),
        r#"{"actor":"momiji-mobility","actor_role":"economic operator","at":"2026-07-14T09:00:00Z","data":{"Correction":{"field":"subject.markets","new_value":"EU,JP","prior_value":"","reason":"market placement declaration (EU, JP)"}},"type":"correction"}"#
    );
    assert_eq!(
        event_body(4, "now"),
        r#"{"actor":"e8-bms-controller","actor_role":"device","at":"now","data":{"MilestoneRecord":{"counters":{"battery.capacity-kwh":"0.72","de.dpp.carbon-footprint":"96.4","de.dpp.reparability-score":"8.1"}}},"type":"milestone.record"}"#
    );
    for i in 0..5u8 {
        let doc = parse_json(&event_body(i, "now")).ok().unwrap();
        assert_eq!(text_of_path(&doc, &["type"]), event_token(i));
    }
    assert_eq!(
        text_of_path(&parse_or_null(&event_body(2, "")), &["data", "Correction", "field"]),
        "de.dpp.operator-id"
    );
    assert_eq!(
        text_of_path(&parse_or_null(&event_body(3, "")), &["actor"]),
        "momiji-type-approval"
    );
}

#[test]
fn the_snapshot_notarizes_the_view() {
    let doc = parse_or_null(&snapshot_body("{\"é\":1}", "head"));
    assert_eq!(text_of_path(&doc, &["state_hash"]), sha256_hex("{\"é\":1}".as_bytes()));
    assert_eq!(text_of_path(&doc, &["log_head"]), "head");
    assert_eq!(text_of_path(&doc, &["state_size"]), "0");
    assert_eq!(text_of_path(&doc, &["submitter"]), "urn:unidpp:actor:pilot-operator");
}

#[test]
fn the_walkthrough_begins_with_health() {
    let turn = run(&place());
    assert_eq!(done(&turn.plan), texts(&["mkdir /p/demo"]));
    assert_eq!(asked(&turn), "get 8390 /healthz");
    assert_eq!(reply(Awaiting::Health(0), gave(200, "")).1, "get 8393 /healthz");
    assert_eq!(reply(Awaiting::Health(3), gave(200, "")).1, "get 8396 /healthz");
    assert_eq!(
        reply(Awaiting::Health(4), gave(200, "")).1,
        "find /f/unidpp-cli/target/release/unidpp"
    );
    assert_eq!(
        reply(Awaiting::Health(2), None).1,
        "die projector is not healthy — run: unidpp-stack up"
    );
    assert_eq!(
        asked(&on_tool(&place(), false)),
        "die unidpp CLI missing at /f/unidpp-cli/target/release/unidpp (cd unidpp-cli && cargo build --release)"
    );
    assert_eq!(asked(&on_tool(&place(), true)), "get 8390 /units");
}

#[test]
fn the_registry_is_seeded_once() {
    assert_eq!(
        reply(Awaiting::Units, gave(200, r#"{"items":[]}"#)).1,
        "post 8390 /admin/seed {}"
    );
    assert_eq!(reply(Awaiting::Units, None).1, "post 8390 /admin/seed {}");
    assert_eq!(
        reply(Awaiting::Units, gave(200, r#"{"items":[1,2]}"#)),
        (
            texts(&[
                "  already present (2 units — journal replay)",
                "== [2] item seed (10 pilot items)",
            ]),
            "list /p/seed/items".to_string()
        )
    );
    let body = r#"{"counts":{"units":10}}"#;
    assert_eq!(
        reply(Awaiting::Seeded, gave(200, body)),
        (
            vec![
                format!("write /p/demo/00-discovery-seed.json {} 00-discovery-seed.json", body),
                "  seeded: units=10".to_string(),
                "== [2] item seed (10 pilot items)".to_string(),
            ],
            "list /p/seed/items".to_string()
        )
    );
    assert_eq!(reply(Awaiting::Seeded, None).1, "panic seed answered");
    assert_eq!(
        reply(Awaiting::Seeded, gave(500, "no")).1,
        "die POST /admin/seed -> 500: no"
    );
}

fn registered(drawer: Drawer, rest: &[&str]) -> Awaiting {
    Awaiting::Registered { drawer, item: "i".to_string(), rest: texts(rest) }
}

#[test]
fn drawers_are_emptied_in_order() {
    let first = on_drawer(&place(), Drawer::Items, &texts(&["b.json", "a.json", "x"]));
    assert_eq!(asked(&first), "read /p/seed/items/a.json");
    match first.after {
        After::Read { rest, .. } => assert_eq!(rest, texts(&["b.json"])),
        _ => panic!("nothing is read"),
    }
    assert_eq!(
        asked(&on_document(Drawer::Items, texts(&[]), r#"{"item_id":"i"}"#.to_string())),
        r#"post 8390 /items {"item_id":"i"}"#
    );
    assert_eq!(
        asked(&on_document(Drawer::Lenses, texts(&[]), "{}".to_string())),
        "post 8390 /profiles {}"
    );
    assert_eq!(
        reply(registered(Drawer::Items, &["b.json"]), gave(201, "")),
        (texts(&["  registered i"]), "read /p/seed/items/b.json".to_string())
    );
    assert_eq!(
        reply(registered(Drawer::Items, &[]), gave(409, "")),
        (
            texts(&["  present    i", "== [3] lens seed (projector-shaped lens profiles)"]),
            "list /p/seed/lens".to_string()
        )
    );
    assert_eq!(
        reply(registered(Drawer::Lenses, &[]), gave(201, "")).1,
        "list /p/seed/bindings"
    );
    assert_eq!(
        reply(registered(Drawer::Lenses, &[]), gave(400, "bad")).1,
        "die POST /profiles -> 400: bad"
    );
    assert_eq!(reply(registered(Drawer::Items, &[]), None).1, "panic items answered");
    assert_eq!(reply(registered(Drawer::Lenses, &[]), None).1, "panic profiles answered");
    let none = on_drawer(&place(), Drawer::Bindings, &texts(&[]));
    assert!(asked(&none).starts_with("post 8393 /passports {"));
    assert_eq!(done(&none.plan), texts(&["== [5] demo passport (live issuer)"]));
}

fn bound(rest: &[&str]) -> Awaiting {
    Awaiting::Bound {
        body: "B".to_string(),
        profile: "eu".to_string(),
        subject: "momiji:e8".to_string(),
        from: "2028".to_string(),
        rest: texts(rest),
    }
}

#[test]
fn a_binding_is_made_once() {
    let body = r#"{"profile_id":"eu","product_type":"momiji:e8","effective_from":"2028"}"#;
    let turn = on_document(Drawer::Bindings, texts(&[]), body.to_string());
    assert_eq!(
        asked(&turn),
        "get 8390 /applicability?product_type=momiji:e8&at=2030-01-01T00:00:00Z"
    );
    match turn.after {
        After::Call(_, Awaiting::Bound { profile, subject, from, .. }) => {
            assert_eq!((profile, subject, from), ("eu".to_string(), "momiji:e8".to_string(), "2028".to_string()))
        }
        _ => panic!("nothing is asked"),
    }
    let there = r#"{"applicability":[{"binding":{"profile_item":"eu"}}]}"#;
    assert_eq!(
        reply(bound(&["x.json"]), gave(200, there)),
        (
            texts(&["  present    eu on momiji:e8"]),
            "read /p/seed/bindings/x.json".to_string()
        )
    );
    assert_eq!(reply(bound(&[]), gave(200, "{}")).1, "post 8390 /applicability B");
    assert_eq!(reply(bound(&[]), None).1, "post 8390 /applicability B");
    let binding = || Awaiting::Binding {
        profile: "eu".to_string(),
        subject: "s".to_string(),
        from: "2028".to_string(),
        rest: texts(&["y.json"]),
    };
    assert_eq!(
        reply(binding(), gave(201, "")),
        (
            texts(&["  bound      eu on s (from 2028)"]),
            "read /p/seed/bindings/y.json".to_string()
        )
    );
    assert_eq!(
        reply(binding(), gave(409, "no")).1,
        "die POST /applicability (eu) -> 409: no"
    );
    assert_eq!(reply(binding(), None).1, "panic bindings answered");
}

#[test]
fn the_passport_is_issued_once() {
    let made = reply(Awaiting::Issued, gave(201, "B"));
    assert_eq!(
        made.0,
        texts(&[
            "write /p/demo/01-passport-created.json B 01-passport-created.json",
            "  issued urn:unidpp:passport:pilot-e8-j000842",
        ])
    );
    let there = reply(Awaiting::Issued, gave(409, "B"));
    assert_eq!(
        there.0,
        texts(&["  already issued urn:unidpp:passport:pilot-e8-j000842 (issuer journal replay)"])
    );
    assert_eq!(made.1, there.1);
    assert_eq!(made.1, "clock");
    assert_eq!(reply(Awaiting::Issued, gave(500, "x")).1, "die POST /passports -> 500: x");
    assert_eq!(reply(Awaiting::Issued, None).1, "panic issuer answered");
    assert_eq!(
        asked(&on_clock(" 2026-09-07T08:15:59Z\n")),
        "get 8393 /passports/urn%3Aunidpp%3Apassport%3Apilot-e8-j000842"
    );
}

#[test]
fn only_missing_events_are_appended() {
    for have in 0..7u64 {
        let mut turn = on_reply(
            &place(),
            Awaiting::Log { now: "n".to_string() },
            gave(200, &format!("{{\"events\":{}}}", have)),
        );
        let mut posted: Vec<u8> = Vec::new();
        loop {
            match turn.after {
                After::Call(_, Awaiting::Appended { now, i }) => {
                    posted.push(i);
                    turn = on_reply(
                        &place(),
                        Awaiting::Appended { now, i },
                        gave(201, r#"{"event_type":"t"}"#),
                    );
                }
                _ => break,
            }
        }
        let expected: Vec<u8> = (0..5u8).filter(|i| u64::from(*i) >= have).collect();
        assert_eq!(posted, expected);
        assert_eq!(done(&turn.plan).last().unwrap(), "  log: 5/5 events (as-of-reconstructable)");
    }
    let all = on_reply(&place(), Awaiting::Log { now: "n".to_string() }, None);
    assert!(asked(&all).starts_with(
        "post 8393 /passports/urn%3Aunidpp%3Apassport%3Apilot-e8-j000842/events {"
    ));
    let appended = || Awaiting::Appended { now: "n".to_string(), i: 1 };
    assert_eq!(
        reply(appended(), gave(201, r#"{"event_type":"Correction"}"#)).0,
        texts(&["  event 2/5: correction (Correction)"])
    );
    assert_eq!(
        reply(appended(), gave(422, "x")).1,
        "die POST /passports/{urn}/events (correction) -> 422: x"
    );
    assert_eq!(reply(appended(), None).1, "panic events answered");
}

#[test]
fn the_pack_is_verified() {
    let view = r#"{"status":"active","log_head":"0123456789abcdef01"}"#;
    let (steps, next) = reply(Awaiting::Passport, gave(200, view));
    assert_eq!(steps[1], format!("write /p/passports/pilot-e8.json {} !", view));
    assert_eq!(steps[2], "  view: status active · log_head 0123456789abcdef…");
    assert_eq!(
        next,
        "post 8393 /passports/urn%3Aunidpp%3Apassport%3Apilot-e8-j000842/pack {}"
    );
    assert_eq!(reply(Awaiting::Passport, None).1, "die cannot fetch the passport view");
    let packed = || Awaiting::Packed { view: "V".to_string(), log_head: "H".to_string() };
    assert_eq!(reply(packed(), gave(201, "P")).1, "get 8393 /keyring");
    assert_eq!(
        reply(packed(), gave(500, "x")).1,
        "die POST /passports/{urn}/pack -> 500: x"
    );
    assert_eq!(reply(packed(), None).1, "panic pack answered");
    let keyring = || Awaiting::Keyring {
        view: "V".to_string(),
        log_head: "H".to_string(),
        pack: r#"{"pack":"beef","bytes":363,"qr_version":15}"#.to_string(),
    };
    let (kept, command) =
        reply(keyring(), gave(200, r#"{"roles":{"pack":{"public":"0123456789abcdefZZ"}}}"#));
    assert_eq!(kept[1], "write /p/demo/pack.hex beef !");
    assert_eq!(
        kept[2],
        "  pack: 363 bytes, QR v15, anchor 0123456789abcdef… (ECDSA-P256)"
    );
    assert_eq!(
        command,
        "run /f/unidpp-cli/target/release/unidpp verify /p/demo/pack.hex --anchor 0123456789abcdefZZ --max-age 0 --json"
    );
    assert_eq!(reply(keyring(), None).1, "die cannot fetch the keyring");
}

#[test]
fn only_a_pass_leads_on() {
    let verdict = |code: Option<u8>, out: &str| {
        let turn = on_verdict(&place(), "V", "H", code, out.as_bytes());
        (done(&turn.plan), asked(&turn))
    };
    let (steps, next) = verdict(Some(0), r#"{"verdict":"pass"}"#);
    assert_eq!(
        steps[0],
        "write /p/demo/05-cli-verify.json {\n  \"exit_code\": 0,\n  \"verdict\": \"pass\"\n} 05-cli-verify.json"
    );
    assert!(next.starts_with("post 8396 /snapshots {"));
    assert_eq!(
        verdict(Some(1), r#"{"grade":"fail"}"#).1,
        "die CLI verify graded 'fail' (exit 1), expected PASS (0)"
    );
    assert_eq!(
        verdict(None, "boom").1,
        "die CLI verify graded '?' (exit 2), expected PASS (0)"
    );
    assert_eq!(
        verdict(None, "boom").0[0],
        "write /p/demo/05-cli-verify.json {\n  \"exit_code\": 2,\n  \"raw\": \"boom\"\n} 05-cli-verify.json"
    );
    assert_eq!(
        verdict(Some(3), r#"{"verdict":7,"grade":"x"}"#).1,
        "die CLI verify graded '?' (exit 3), expected PASS (0)"
    );
    assert!(verdict(Some(0), "null").1.starts_with("post 8396"));
    assert!(verdict(Some(0), "[]").1.starts_with("panic "));
    assert!(verdict(Some(0), "[]").0.is_empty());
}

#[test]
fn the_renders_follow() {
    let snap = r#"{"snapshot_id":"s1","oais":{"provenance":{"anchoring":{"status":"anchored"}}}}"#;
    let (steps, next) = reply(Awaiting::Snapshot, gave(201, snap));
    assert_eq!(steps[1], "  snapshot s1 notarized, anchoring: anchored");
    assert_eq!(steps[2], "== [8] projector two-lens views (at 2028-06-01T00:00:00Z)");
    assert_eq!(
        next,
        "get 8394 /view?passport=urn%3Aunidpp%3Apassport%3Apilot-e8-j000842&profile=urn%3Aunidpp%3Aprofile%3Apilot-eu-lens&actor=importer&at=2028-06-01T00:00:00Z"
    );
    assert_eq!(reply(Awaiting::Snapshot, None).1, "panic archive answered");
    assert_eq!(reply(Awaiting::Snapshot, gave(200, "x")).1, "die POST /snapshots -> 200: x");
    let lens = r#"{"profile":{"source":"registry"},"coverage":{"elements_present":3,"elements_required":4,"complete":false}}"#;
    let (eu, then) = reply(Awaiting::Lens { jp: false }, gave(200, lens));
    assert_eq!(eu[1], "  eu view: source registry, coverage 3/4 (false)");
    assert!(eu[0].starts_with("write /p/demo/07-projector-view-eu.json "));
    assert!(then.contains("pilot-jp-lens"));
    let (jp, gateway) = reply(Awaiting::Lens { jp: true }, gave(200, "{}"));
    assert_eq!(jp[1], "  jp view: source ?, coverage ?/? (?)");
    assert_eq!(jp[2], "== [9] gateway renders (UNTP triad + EN 18222)");
    assert_eq!(
        gateway,
        "get 8395 /untp/product/urn%3Aunidpp%3Apassport%3Apilot-e8-j000842"
    );
    assert_eq!(
        reply(Awaiting::Lens { jp: true }, None).1,
        "die projector view failed for urn:unidpp:profile:pilot-jp-lens"
    );
    let untp = r#"{"rendering":{"source":"issuer"},"verdict":{"outcome":"pass","coverage":{"signatures":{"verified":5}}}}"#;
    let (triad, en) = reply(Awaiting::Untp, gave(200, untp));
    assert_eq!(
        triad[1],
        "  UNTP triad: source issuer, outcome pass (5 signatures verified)"
    );
    assert_eq!(en, "get 8395 /en18222/v1/dppsByProductId/4006381333931?representation=full");
    assert_eq!(reply(Awaiting::Untp, None).1, "die UNTP render failed");
    let (render, as_of) =
        reply(Awaiting::Render, gave(200, r#"{"digitalProductPassportId":"d"}"#));
    assert_eq!(render[1], "  EN 18222 render: dpp d via GTIN 4006381333931");
    assert_eq!(
        as_of,
        "get 8390 /applicability?product_type=momiji:e8&at=2027-06-01T00:00:00Z"
    );
    assert_eq!(reply(Awaiting::Render, None).1, "die EN 18222 render failed");
}

#[test]
fn the_walkthrough_ends_with_its_artifacts() {
    let first = r#"{"applicability":[{"binding":{"profile_item":"jp"}}]}"#;
    let both = r#"{"applicability":[{"binding":{"profile_item":"jp"}},{"binding":{"profile_item":"eu"}}]}"#;
    let (early, next) = reply(Awaiting::AsOf { later: false }, gave(200, first));
    assert_eq!(early[1], "  at 2027-06-01: jp");
    assert!(early[0].starts_with("write /p/demo/10-applicability-2027-06-01.json "));
    assert_eq!(
        next,
        "get 8390 /applicability?product_type=momiji:e8&at=2028-06-01T00:00:00Z"
    );
    let (late, end) = reply(Awaiting::AsOf { later: true }, gave(200, both));
    assert_eq!(late[1..], texts(&["  at 2028-06-01: eu, jp", "", "== demo artifacts:"])[..]);
    assert_eq!(end, "artifacts /p/demo");
    assert_eq!(reply(Awaiting::AsOf { later: true }, None).1, "die as-of query failed");
    let last = on_artifacts(&texts(&["pack.hex", "x", "00.json"]));
    assert_eq!(
        done(&last.plan),
        texts(&[
            "   demo/00.json",
            "   demo/pack.hex",
            "== seed complete — the stack stays up (unidpp-stack status, unidpp-stack down)",
        ])
    );
    assert_eq!(asked(&last), "done");
}
