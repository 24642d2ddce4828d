//! The walkthrough seed as a machine: it asks one question at a time, and
//! from the answer follows what is done and what is asked next. It can be run
//! again against a running stack: creations tolerate a conflict, events are
//! appended only beyond those that the log has, the binding check looks into
//! the future.

use vstd::prelude::*;
use vstd::string::*;

use crate::backup::contains_name;
use crate::decimal;
use crate::decimal::decimal_of;
use crate::digest;
use crate::http::HttpText;
use crate::json;
use crate::json::{
    count_of_path, number_json, parse_json, parse_or_null, pretty, text_json, text_of_path, Fields,
    Json, JsonView,
};
use crate::order;
use crate::path;
use crate::path::join;
use crate::plan;
use crate::plan::{Fault, FaultView, Plan, Step, StepView};
use crate::seed;
use crate::seed::{
    beginning_of, counts_of, creation_body, encode, event_body, event_token, expect_created,
    snapshot_body, sorted_artifacts, sorted_json_files, sorted_profiles, unexpected_text,
};
use crate::services;
use crate::services::Pilot;
use crate::stack;
use crate::stack::healthy;
use crate::text;
use crate::text::{cat2, cat3, cat4, cat5, chars_of, joined, text_from, text_of, trimmed};

verus! {

// ---------------------------------------------------------------------------
// Questions and answers.
// ---------------------------------------------------------------------------

/// A directory of seed documents.
#[derive(Clone, Copy, PartialEq, Eq, Structural)]
pub enum Drawer {
    Items,
    Lenses,
    Bindings,
}

/// A question to a service, as mathematics.
pub struct CallView {
    pub port: u16,
    pub path: Seq<char>,
    pub body: Option<Seq<char>>,
}

/// A question to a service: a document to fetch, or to post where there is a
/// body.
pub struct Call {
    pub port: u16,
    pub path: String,
    pub body: Option<String>,
}

impl View for Call {
    type V = CallView;

    open spec fn view(&self) -> CallView {
        CallView {
            port: self.port,
            path: self.path@,
            body: match self.body {
                Some(b) => Some(b@),
                None => None,
            },
        }
    }
}

/// What the answer of a service is for, as mathematics.
pub enum AwaitingView {
    Health(nat),
    Units,
    Seeded,
    Registered { drawer: Drawer, item: Seq<char>, rest: Seq<Seq<char>> },
    Bound {
        body: Seq<char>,
        profile: Seq<char>,
        subject: Seq<char>,
        from: Seq<char>,
        rest: Seq<Seq<char>>,
    },
    Binding { profile: Seq<char>, subject: Seq<char>, from: Seq<char>, rest: Seq<Seq<char>> },
    Issued,
    Log { now: Seq<char> },
    Appended { now: Seq<char>, i: nat },
    Passport,
    Packed { view: Seq<char>, log_head: Seq<char> },
    Keyring { view: Seq<char>, log_head: Seq<char>, pack: Seq<char> },
    Snapshot,
    Lens { jp: bool },
    Untp,
    Render,
    AsOf { later: bool },
}

/// What the answer of a service is for.
pub enum Awaiting {
    /// Whether a service is healthy.
    Health(usize),
    /// The units of the registry.
    Units,
    /// The discovery seed.
    Seeded,
    /// An item or a lens that was posted.
    Registered { drawer: Drawer, item: String, rest: Vec<String> },
    /// The bindings of a product type in the future.
    Bound { body: String, profile: String, subject: String, from: String, rest: Vec<String> },
    /// A binding that was posted.
    Binding { profile: String, subject: String, from: String, rest: Vec<String> },
    /// The demo passport.
    Issued,
    /// The events that the log has.
    Log { now: String },
    /// An event that was posted.
    Appended { now: String, i: u8 },
    /// The passport view.
    Passport,
    /// The pack.
    Packed { view: String, log_head: String },
    /// The issuer's keyring.
    Keyring { view: String, log_head: String, pack: String },
    /// The snapshot.
    Snapshot,
    /// The projector's view through a lens.
    Lens { jp: bool },
    /// The gateway's UNTP render.
    Untp,
    /// The gateway's EN 18222 render.
    Render,
    /// The applicability at a moment.
    AsOf { later: bool },
}

impl View for Awaiting {
    type V = AwaitingView;

    open spec fn view(&self) -> AwaitingView {
        match self {
            Awaiting::Health(i) => AwaitingView::Health(*i as nat),
            Awaiting::Units => AwaitingView::Units,
            Awaiting::Seeded => AwaitingView::Seeded,
            Awaiting::Registered { drawer, item, rest } => AwaitingView::Registered {
                drawer: *drawer,
                item: item@,
                rest: text::views(rest@),
            },
            Awaiting::Bound { body, profile, subject, from, rest } => AwaitingView::Bound {
                body: body@,
                profile: profile@,
                subject: subject@,
                from: from@,
                rest: text::views(rest@),
            },
            Awaiting::Binding { profile, subject, from, rest } => AwaitingView::Binding {
                profile: profile@,
                subject: subject@,
                from: from@,
                rest: text::views(rest@),
            },
            Awaiting::Issued => AwaitingView::Issued,
            Awaiting::Log { now } => AwaitingView::Log { now: now@ },
            Awaiting::Appended { now, i } => AwaitingView::Appended { now: now@, i: *i as nat },
            Awaiting::Passport => AwaitingView::Passport,
            Awaiting::Packed { view, log_head } => AwaitingView::Packed {
                view: view@,
                log_head: log_head@,
            },
            Awaiting::Keyring { view, log_head, pack } => AwaitingView::Keyring {
                view: view@,
                log_head: log_head@,
                pack: pack@,
            },
            Awaiting::Snapshot => AwaitingView::Snapshot,
            Awaiting::Lens { jp } => AwaitingView::Lens { jp: *jp },
            Awaiting::Untp => AwaitingView::Untp,
            Awaiting::Render => AwaitingView::Render,
            Awaiting::AsOf { later } => AwaitingView::AsOf { later: *later },
        }
    }
}

/// How the walkthrough goes on, as mathematics.
pub enum AfterView {
    Call(CallView, AwaitingView),
    FindTool(Seq<char>),
    ListDrawer { dir: Seq<char>, drawer: Drawer },
    ListArtifacts(Seq<char>),
    Read { path: Seq<char>, drawer: Drawer, rest: Seq<Seq<char>> },
    Clock,
    RunTool {
        program: Seq<char>,
        args: Seq<Seq<char>>,
        view: Seq<char>,
        log_head: Seq<char>,
    },
    Done,
    Die(Seq<char>),
    Panic(Seq<char>),
}

/// How the walkthrough goes on.
pub enum After {
    /// A service is asked, and the answer goes to `on_reply`.
    Call(Call, Awaiting),
    /// Is the command line tool there? The answer goes to `on_tool`.
    FindTool(String),
    /// The names in a directory go to `on_drawer`; none, where it cannot be
    /// read.
    ListDrawer { dir: String, drawer: Drawer },
    /// The names in a directory go to `on_artifacts`.
    ListArtifacts(String),
    /// The text of a file goes to `on_document`.
    Read { path: String, drawer: Drawer, rest: Vec<String> },
    /// The clock's reading goes to `on_clock`.
    Clock,
    /// The command line tool is run, and how it went goes to `on_verdict`.
    RunTool { program: String, args: Vec<String>, view: String, log_head: String },
    /// It is complete.
    Done,
    /// It ends, and says why.
    Die(String),
    /// It panics, and says why.
    Panic(String),
}

impl View for After {
    type V = AfterView;

    open spec fn view(&self) -> AfterView {
        match self {
            After::Call(call, awaiting) => AfterView::Call(call@, awaiting@),
            After::FindTool(p) => AfterView::FindTool(p@),
            After::ListDrawer { dir, drawer } => AfterView::ListDrawer {
                dir: dir@,
                drawer: *drawer,
            },
            After::ListArtifacts(p) => AfterView::ListArtifacts(p@),
            After::Read { path, drawer, rest } => AfterView::Read {
                path: path@,
                drawer: *drawer,
                rest: text::views(rest@),
            },
            After::Clock => AfterView::Clock,
            After::RunTool { program, args, view, log_head } => AfterView::RunTool {
                program: program@,
                args: text::views(args@),
                view: view@,
                log_head: log_head@,
            },
            After::Done => AfterView::Done,
            After::Die(m) => AfterView::Die(m@),
            After::Panic(m) => AfterView::Panic(m@),
        }
    }
}

/// One turn of the walkthrough, as mathematics.
pub struct TurnView {
    pub steps: Seq<StepView>,
    pub after: AfterView,
}

/// One turn of the walkthrough: what is done, and how it goes on.
pub struct Turn {
    pub plan: Plan,
    pub after: After,
}

impl View for Turn {
    type V = TurnView;

    open spec fn view(&self) -> TurnView {
        TurnView { steps: self.plan@, after: self.after@ }
    }
}

/// A turn that begins with some steps.
pub open spec fn behind(steps: Seq<StepView>, turn: TurnView) -> TurnView {
    TurnView { steps: steps + turn.steps, after: turn.after }
}

/// Fetching a document.
pub open spec fn fetch(
    steps: Seq<StepView>,
    port: u16,
    path: Seq<char>,
    awaiting: AwaitingView,
) -> TurnView {
    TurnView { steps, after: AfterView::Call(CallView { port, path, body: None }, awaiting) }
}

/// Posting a document.
pub open spec fn send(
    steps: Seq<StepView>,
    port: u16,
    path: Seq<char>,
    body: Seq<char>,
    awaiting: AwaitingView,
) -> TurnView {
    TurnView { steps, after: AfterView::Call(CallView { port, path, body: Some(body) }, awaiting) }
}

/// The end, with a complaint.
pub open spec fn dead(complaint: Seq<char>) -> TurnView {
    TurnView { steps: Seq::empty(), after: AfterView::Die(complaint) }
}

/// The end, by a panic.
pub open spec fn panicked(complaint: Seq<char>) -> TurnView {
    TurnView { steps: Seq::empty(), after: AfterView::Panic(complaint) }
}

fn fetch_turn(plan: Plan, port: u16, path: String, awaiting: Awaiting) -> (r: Turn)
    ensures
        r@ == fetch(plan@, port, path@, awaiting@),
{
    Turn { plan, after: After::Call(Call { port, path, body: None }, awaiting) }
}

fn send_turn(plan: Plan, port: u16, path: String, body: String, awaiting: Awaiting) -> (r: Turn)
    ensures
        r@ == send(plan@, port, path@, body@, awaiting@),
{
    Turn { plan, after: After::Call(Call { port, path, body: Some(body) }, awaiting) }
}

fn dead_turn(complaint: String) -> (r: Turn)
    ensures
        r@ == dead(complaint@),
{
    Turn { plan: Plan::new(), after: After::Die(complaint) }
}

fn panicked_turn(complaint: &str) -> (r: Turn)
    ensures
        r@ == panicked(complaint@),
{
    Turn { plan: Plan::new(), after: After::Panic(complaint.to_string()) }
}

/// The directory of the demo artifacts.
pub open spec fn demo_dir(dir: Seq<char>) -> Seq<char> {
    path::below(dir, "demo"@)
}

/// A demo artifact that is written.
pub open spec fn artifact(dir: Seq<char>, name: Seq<char>, body: Seq<char>) -> StepView {
    StepView::Write {
        path: path::below(demo_dir(dir), name),
        text: body,
        fault: FaultView::Die(name),
    }
}

/// The directory of the demo artifacts.
pub fn artifact_dir(pilot: &Pilot) -> (r: String)
    ensures
        r@ == demo_dir(pilot.dir@),
{
    join(pilot.dir.as_str(), "demo")
}

/// A demo artifact that is written.
pub fn write_artifact(dir: &str, name: &str, body: &str) -> (r: Step)
    ensures
        r@ == (StepView::Write {
            path: path::below(dir@, name@),
            text: body@,
            fault: FaultView::Die(name@),
        }),
{
    Step::Write {
        path: join(dir, name),
        text: body.to_string(),
        fault: Fault::Die(name.to_string()),
    }
}

fn text1(doc: &Json, a: &str) -> (r: String)
    ensures
        r@ == json::text_at(doc@, seq![a@]),
{
    let path: [&str; 1] = [a];
    assert(json::path_view(path@) =~= seq![a@]);
    text_of_path(doc, path.as_slice())
}

fn text2(doc: &Json, a: &str, b: &str) -> (r: String)
    ensures
        r@ == json::text_at(doc@, seq![a@, b@]),
{
    let path: [&str; 2] = [a, b];
    assert(json::path_view(path@) =~= seq![a@, b@]);
    text_of_path(doc, path.as_slice())
}

fn text3(doc: &Json, a: &str, b: &str, c: &str) -> (r: String)
    ensures
        r@ == json::text_at(doc@, seq![a@, b@, c@]),
{
    let path: [&str; 3] = [a, b, c];
    assert(json::path_view(path@) =~= seq![a@, b@, c@]);
    text_of_path(doc, path.as_slice())
}

fn text4(doc: &Json, a: &str, b: &str, c: &str, d: &str) -> (r: String)
    ensures
        r@ == json::text_at(doc@, seq![a@, b@, c@, d@]),
{
    let path: [&str; 4] = [a, b, c, d];
    assert(json::path_view(path@) =~= seq![a@, b@, c@, d@]);
    text_of_path(doc, path.as_slice())
}

// ---------------------------------------------------------------------------
// Before the first section.
// ---------------------------------------------------------------------------

/// The services that the walkthrough needs, in the order in which their
/// health is asked for.
pub open spec fn needed(i: nat) -> (Seq<char>, u16) {
    if i == 0 {
        ("registry"@, seed::REGISTRY)
    } else if i == 1 {
        ("issuer"@, seed::ISSUER)
    } else if i == 2 {
        ("projector"@, seed::PROJECTOR)
    } else if i == 3 {
        ("gateway"@, seed::GATEWAY)
    } else {
        ("archive"@, seed::ARCHIVE)
    }
}

fn needed_service(i: usize) -> (r: (&'static str, u16))
    ensures
        (r.0@, r.1) == needed(i as nat),
{
    if i == 0 {
        ("registry", seed::REGISTRY)
    } else if i == 1 {
        ("issuer", seed::ISSUER)
    } else if i == 2 {
        ("projector", seed::PROJECTOR)
    } else if i == 3 {
        ("gateway", seed::GATEWAY)
    } else {
        ("archive", seed::ARCHIVE)
    }
}

/// The command line tool.
pub open spec fn tool(family: Seq<char>) -> Seq<char> {
    path::below(family, "unidpp-cli/target/release/unidpp"@)
}

/// The first turn.
pub open spec fn start(dir: Seq<char>) -> TurnView {
    fetch(
        seq![StepView::MakeDir { path: demo_dir(dir), fault: FaultView::Panic }],
        seed::REGISTRY,
        "/healthz"@,
        AwaitingView::Health(0),
    )
}

/// The walkthrough begins: the directory of the artifacts is made, and the
/// first service is asked for its health.
pub fn run(pilot: &Pilot) -> (r: Turn)
    ensures
        r@ == start(pilot.dir@),
{
    let mut plan = Plan::new();
    plan.then_do(Step::MakeDir { path: artifact_dir(pilot), fault: Fault::Panic });
    assert(plan@ =~= seq![StepView::MakeDir { path: demo_dir(pilot.dir@), fault: FaultView::Panic }]);
    fetch_turn(plan, seed::REGISTRY, "/healthz".to_string(), Awaiting::Health(0))
}

/// A service has been asked for its health.
pub open spec fn health_turn(family: Seq<char>, i: nat, reply: Option<HttpText>) -> TurnView {
    if !stack::is_healthy(reply) {
        dead(needed(i).0 + " is not healthy — run: unidpp-stack up"@)
    } else if i < 4 {
        fetch(Seq::empty(), needed(i + 1).1, "/healthz"@, AwaitingView::Health(i + 1))
    } else {
        TurnView { steps: Seq::empty(), after: AfterView::FindTool(tool(family)) }
    }
}

fn on_health(pilot: &Pilot, i: usize, reply: &Option<HttpText>) -> (r: Turn)
    ensures
        r@ == health_turn(pilot.family@, i as nat, *reply),
{
    if !healthy(reply) {
        dead_turn(cat2(needed_service(i).0, " is not healthy — run: unidpp-stack up"))
    } else if i < 4 {
        fetch_turn(
            Plan::new(),
            needed_service(i + 1).1,
            "/healthz".to_string(),
            Awaiting::Health(i + 1),
        )
    } else {
        let program = join(pilot.family.as_str(), "unidpp-cli/target/release/unidpp");
        Turn { plan: Plan::new(), after: After::FindTool(program) }
    }
}

/// It has been looked whether the command line tool is there.
pub open spec fn tool_turn(family: Seq<char>, found: bool) -> TurnView {
    if !found {
        dead(
            "unidpp CLI missing at "@ + tool(family)
                + " (cd unidpp-cli && cargo build --release)"@,
        )
    } else {
        fetch(
            seq![StepView::Say("== [1] discovery seed (C3/C4/C5 + C1 units)"@)],
            seed::REGISTRY,
            "/units"@,
            AwaitingView::Units,
        )
    }
}

/// It has been looked whether the command line tool is there.
pub fn on_tool(pilot: &Pilot, found: bool) -> (r: Turn)
    ensures
        r@ == tool_turn(pilot.family@, found),
{
    if !found {
        let program = join(pilot.family.as_str(), "unidpp-cli/target/release/unidpp");
        dead_turn(
            cat3(
                "unidpp CLI missing at ",
                program.as_str(),
                " (cd unidpp-cli && cargo build --release)",
            ),
        )
    } else {
        let mut plan = Plan::new();
        plan.say_text("== [1] discovery seed (C3/C4/C5 + C1 units)");
        assert(plan@ =~= seq![StepView::Say("== [1] discovery seed (C3/C4/C5 + C1 units)"@)]);
        fetch_turn(plan, seed::REGISTRY, "/units".to_string(), Awaiting::Units)
    }
}

// ---------------------------------------------------------------------------
// The registry's seed: discovery, items, lenses, bindings.
// ---------------------------------------------------------------------------

/// Where the documents of a drawer lie.
pub open spec fn folder(drawer: Drawer) -> Seq<char> {
    match drawer {
        Drawer::Items => "seed/items"@,
        Drawer::Lenses => "seed/lens"@,
        Drawer::Bindings => "seed/bindings"@,
    }
}

/// Where the documents of a drawer are posted to.
pub open spec fn route(drawer: Drawer) -> Seq<char> {
    match drawer {
        Drawer::Items => "/items"@,
        Drawer::Lenses => "/profiles"@,
        Drawer::Bindings => "/applicability"@,
    }
}

/// The line above the documents of a drawer.
pub open spec fn heading(drawer: Drawer) -> Seq<char> {
    match drawer {
        Drawer::Items => "== [2] item seed (10 pilot items)"@,
        Drawer::Lenses => "== [3] lens seed (projector-shaped lens profiles)"@,
        Drawer::Bindings => "== [4] applicability bindings (dated, on product type momiji:e8)"@,
    }
}

/// What is said where the registry did not answer.
pub open spec fn silence(drawer: Drawer) -> Seq<char> {
    match drawer {
        Drawer::Items => "items answered"@,
        Drawer::Lenses => "profiles answered"@,
        Drawer::Bindings => "bindings answered"@,
    }
}

fn folder_of(drawer: Drawer) -> (r: &'static str)
    ensures
        r@ == folder(drawer),
{
    match drawer {
        Drawer::Items => "seed/items",
        Drawer::Lenses => "seed/lens",
        Drawer::Bindings => "seed/bindings",
    }
}

fn route_of(drawer: Drawer) -> (r: &'static str)
    ensures
        r@ == route(drawer),
{
    match drawer {
        Drawer::Items => "/items",
        Drawer::Lenses => "/profiles",
        Drawer::Bindings => "/applicability",
    }
}

fn heading_of(drawer: Drawer) -> (r: &'static str)
    ensures
        r@ == heading(drawer),
{
    match drawer {
        Drawer::Items => "== [2] item seed (10 pilot items)",
        Drawer::Lenses => "== [3] lens seed (projector-shaped lens profiles)",
        Drawer::Bindings => "== [4] applicability bindings (dated, on product type momiji:e8)",
    }
}

fn silence_of(drawer: Drawer) -> (r: &'static str)
    ensures
        r@ == silence(drawer),
{
    match drawer {
        Drawer::Items => "items answered",
        Drawer::Lenses => "profiles answered",
        Drawer::Bindings => "bindings answered",
    }
}

/// A drawer is opened.
pub open spec fn opened(dir: Seq<char>, drawer: Drawer) -> TurnView {
    TurnView {
        steps: seq![StepView::Say(heading(drawer))],
        after: AfterView::ListDrawer { dir: path::below(dir, folder(drawer)), drawer },
    }
}

/// The demo passport is asked for.
pub open spec fn issuing() -> TurnView {
    send(
        seq![StepView::Say("== [5] demo passport (live issuer)"@)],
        seed::ISSUER,
        "/passports"@,
        json::compact_text(seed::creation()),
        AwaitingView::Issued,
    )
}

/// The next document of a drawer, or the next drawer, or the passport.
pub open spec fn onward(dir: Seq<char>, drawer: Drawer, rest: Seq<Seq<char>>) -> TurnView {
    if rest.len() > 0 {
        TurnView {
            steps: Seq::empty(),
            after: AfterView::Read {
                path: path::below(path::below(dir, folder(drawer)), rest[0]),
                drawer,
                rest: rest.skip(1),
            },
        }
    } else {
        match drawer {
            Drawer::Items => opened(dir, Drawer::Lenses),
            Drawer::Lenses => opened(dir, Drawer::Bindings),
            Drawer::Bindings => issuing(),
        }
    }
}

fn open_drawer(plan: Plan, pilot: &Pilot, drawer: Drawer) -> (r: Turn)
    ensures
        r@ == behind(plan@, opened(pilot.dir@, drawer)),
{
    let mut plan = plan;
    let ghost before = plan@;
    plan.say_text(heading_of(drawer));
    assert(plan@ =~= before + seq![StepView::Say(heading(drawer))]);
    Turn {
        plan,
        after: After::ListDrawer { dir: join(pilot.dir.as_str(), folder_of(drawer)), drawer },
    }
}

fn go_on(plan: Plan, pilot: &Pilot, drawer: Drawer, rest: Vec<String>) -> (r: Turn)
    ensures
        r@ == behind(plan@, onward(pilot.dir@, drawer, text::views(rest@))),
{
    if rest.len() > 0 {
        let mut rest = rest;
        let ghost all = text::views(rest@);
        let name = rest.remove(0);
        assert(text::views(rest@) =~= all.skip(1));
        assert(plan@ =~= plan@ + Seq::<StepView>::empty());
        Turn {
            plan,
            after: After::Read {
                path: join(join(pilot.dir.as_str(), folder_of(drawer)).as_str(), name.as_str()),
                drawer,
                rest,
            },
        }
    } else {
        match drawer {
            Drawer::Items => open_drawer(plan, pilot, Drawer::Lenses),
            Drawer::Lenses => open_drawer(plan, pilot, Drawer::Bindings),
            Drawer::Bindings => {
                let mut plan = plan;
                let ghost before = plan@;
                plan.say_text("== [5] demo passport (live issuer)");
                assert(plan@ =~= before + seq![
                    StepView::Say("== [5] demo passport (live issuer)"@),
                ]);
                send_turn(
                    plan,
                    seed::ISSUER,
                    "/passports".to_string(),
                    creation_body(),
                    Awaiting::Issued,
                )
            },
        }
    }
}

/// The number of units in the registry's answer.
pub open spec fn units(reply: Option<HttpText>) -> nat {
    match reply {
        Some(r) => json::count_at(json::parsed_or_null(r.body@), seq!["items"@]),
        None => 0,
    }
}

/// The registry has been asked for its units: without any it is seeded.
pub open spec fn units_turn(dir: Seq<char>, reply: Option<HttpText>) -> TurnView {
    if units(reply) == 0 {
        send(Seq::empty(), seed::REGISTRY, "/admin/seed"@, "{}"@, AwaitingView::Seeded)
    } else {
        behind(
            seq![
                StepView::Say(
                    "  already present ("@ + decimal::decimal(units(reply))
                        + " units — journal replay)"@,
                ),
            ],
            opened(dir, Drawer::Items),
        )
    }
}

fn on_units(pilot: &Pilot, reply: &Option<HttpText>) -> (r: Turn)
    ensures
        r@ == units_turn(pilot.dir@, *reply),
{
    let units: usize = match reply {
        Some(answer) => {
            let path: [&str; 1] = ["items"];
            assert(json::path_view(path@) =~= seq!["items"@]);
            count_of_path(&parse_or_null(answer.body.as_str()), path.as_slice())
        },
        None => 0,
    };
    if units == 0 {
        send_turn(
            Plan::new(),
            seed::REGISTRY,
            "/admin/seed".to_string(),
            "{}".to_string(),
            Awaiting::Seeded,
        )
    } else {
        let mut plan = Plan::new();
        plan.say(
            cat3(
                "  already present (",
                decimal_of(units as u64).as_str(),
                " units — journal replay)",
            ),
        );
        assert(plan@ =~= seq![
            StepView::Say(
                "  already present ("@ + decimal::decimal(units as nat)
                    + " units — journal replay)"@,
            ),
        ]);
        open_drawer(plan, pilot, Drawer::Items)
    }
}

/// The registry has been asked to seed itself.
pub open spec fn seeded_turn(dir: Seq<char>, reply: Option<HttpText>) -> TurnView {
    match reply {
        None => panicked("seed answered"@),
        Some(r) => if r.status == 200 || r.status == 201 {
            behind(
                seq![
                    artifact(dir, "00-discovery-seed.json"@, r.body@),
                    StepView::Say(
                        "  seeded: "@ + seed::counts(json::parsed_or_null(r.body@)),
                    ),
                ],
                opened(dir, Drawer::Items),
            )
        } else {
            dead(seed::unexpected("POST /admin/seed"@, r.status as nat, r.body@))
        },
    }
}

fn on_seeded(pilot: &Pilot, reply: Option<HttpText>) -> (r: Turn)
    ensures
        r@ == seeded_turn(pilot.dir@, reply),
{
    match reply {
        None => panicked_turn("seed answered"),
        Some(answer) => {
            let ok: [u16; 2] = [200, 201];
            assert(ok@[0] == 200 && ok@[1] == 201);
            assert(ok@.contains(answer.status) <==> answer.status == 200 || answer.status == 201);
            match expect_created("POST /admin/seed", answer, ok.as_slice()) {
                Err(complaint) => dead_turn(complaint),
                Ok(created) => {
                    let dir = artifact_dir(pilot);
                    let mut plan = Plan::new();
                    plan.then_do(
                        write_artifact(
                            dir.as_str(),
                            "00-discovery-seed.json",
                            created.body.as_str(),
                        ),
                    );
                    plan.say(
                        cat2(
                            "  seeded: ",
                            counts_of(&parse_or_null(created.body.as_str())).as_str(),
                        ),
                    );
                    assert(plan@ =~= seq![
                        artifact(pilot.dir@, "00-discovery-seed.json"@, created.body@),
                        StepView::Say(
                            "  seeded: "@ + seed::counts(json::parsed_or_null(created.body@)),
                        ),
                    ]);
                    open_drawer(plan, pilot, Drawer::Items)
                },
            }
        },
    }
}

/// The names in a drawer are there.
pub open spec fn drawer_turn(dir: Seq<char>, drawer: Drawer, names: Seq<Seq<char>>) -> TurnView {
    onward(dir, drawer, order::sorted(names.filter(seed::is_json_file())))
}

/// The names in a drawer are there: its JSON documents are taken in
/// dictionary order.
pub fn on_drawer(pilot: &Pilot, drawer: Drawer, names: &Vec<String>) -> (r: Turn)
    ensures
        r@ == drawer_turn(pilot.dir@, drawer, text::views(names@)),
{
    let plan = Plan::new();
    let r = go_on(plan, pilot, drawer, sorted_json_files(names));
    proof {
        lemma_behind_nothing(
            onward(
                pilot.dir@,
                drawer,
                order::sorted(text::views(names@).filter(seed::is_json_file())),
            ),
        );
    }
    r
}

proof fn lemma_behind_nothing(turn: TurnView)
    ensures
        behind(Seq::empty(), turn) == turn,
{
    assert(Seq::<StepView>::empty() + turn.steps =~= turn.steps);
}

/// A document of a drawer has been read.
pub open spec fn document_turn(drawer: Drawer, rest: Seq<Seq<char>>, body: Seq<char>) -> TurnView {
    let doc = json::parsed_or_null(body);
    match drawer {
        Drawer::Bindings => {
            let subject = json::text_at(doc, seq!["product_type"@]);
            fetch(
                Seq::empty(),
                seed::REGISTRY,
                "/applicability?product_type="@ + subject + "&at=2030-01-01T00:00:00Z"@,
                AwaitingView::Bound {
                    body,
                    profile: json::text_at(doc, seq!["profile_id"@]),
                    subject,
                    from: json::text_at(doc, seq!["effective_from"@]),
                    rest,
                },
            )
        },
        _ => send(
            Seq::empty(),
            seed::REGISTRY,
            route(drawer),
            body,
            AwaitingView::Registered {
                drawer,
                item: json::text_at(doc, seq!["item_id"@]),
                rest,
            },
        ),
    }
}

/// A document of a drawer has been read: an item or a lens is posted, of a
/// binding it is asked whether it is there already.
pub fn on_document(drawer: Drawer, rest: Vec<String>, body: String) -> (r: Turn)
    ensures
        r@ == document_turn(drawer, text::views(rest@), body@),
{
    let doc = parse_or_null(body.as_str());
    match drawer {
        Drawer::Bindings => {
            let profile = text1(&doc, "profile_id");
            let subject = text1(&doc, "product_type");
            let from = text1(&doc, "effective_from");
            let path = cat3(
                "/applicability?product_type=",
                subject.as_str(),
                "&at=2030-01-01T00:00:00Z",
            );
            fetch_turn(
                Plan::new(),
                seed::REGISTRY,
                path,
                Awaiting::Bound { body, profile, subject, from, rest },
            )
        },
        _ => {
            let item = text1(&doc, "item_id");
            send_turn(
                Plan::new(),
                seed::REGISTRY,
                route_of(drawer).to_string(),
                body,
                Awaiting::Registered { drawer, item, rest },
            )
        },
    }
}

/// An item or a lens has been posted.
pub open spec fn registered_turn(
    dir: Seq<char>,
    drawer: Drawer,
    item: Seq<char>,
    rest: Seq<Seq<char>>,
    reply: Option<HttpText>,
) -> TurnView {
    match reply {
        None => panicked(silence(drawer)),
        Some(r) => if r.status == 201 {
            behind(seq![StepView::Say("  registered "@ + item)], onward(dir, drawer, rest))
        } else if r.status == 409 {
            behind(seq![StepView::Say("  present    "@ + item)], onward(dir, drawer, rest))
        } else {
            dead(seed::unexpected("POST "@ + route(drawer), r.status as nat, r.body@))
        },
    }
}

fn on_registered(
    pilot: &Pilot,
    drawer: Drawer,
    item: &str,
    rest: Vec<String>,
    reply: &Option<HttpText>,
) -> (r: Turn)
    ensures
        r@ == registered_turn(pilot.dir@, drawer, item@, text::views(rest@), *reply),
{
    match reply {
        None => panicked_turn(silence_of(drawer)),
        Some(answer) => {
            let mut plan = Plan::new();
            if answer.status == 201 {
                plan.say(cat2("  registered ", item));
                assert(plan@ =~= seq![StepView::Say("  registered "@ + item@)]);
                go_on(plan, pilot, drawer, rest)
            } else if answer.status == 409 {
                plan.say(cat2("  present    ", item));
                assert(plan@ =~= seq![StepView::Say("  present    "@ + item@)]);
                go_on(plan, pilot, drawer, rest)
            } else {
                dead_turn(unexpected_text(cat2("POST ", route_of(drawer)).as_str(), answer))
            }
        },
    }
}

/// The registry binds the profile.
pub open spec fn is_bound(reply: Option<HttpText>, profile: Seq<char>) -> bool {
    reply matches Some(r) && seed::profiles(json::parsed_or_null(r.body@)).contains(profile)
}

/// It has been asked whether a binding is there.
pub open spec fn bound_turn(
    dir: Seq<char>,
    body: Seq<char>,
    profile: Seq<char>,
    subject: Seq<char>,
    from: Seq<char>,
    rest: Seq<Seq<char>>,
    reply: Option<HttpText>,
) -> TurnView {
    if is_bound(reply, profile) {
        behind(
            seq![StepView::Say("  present    "@ + profile + " on "@ + subject)],
            onward(dir, Drawer::Bindings, rest),
        )
    } else {
        send(
            Seq::empty(),
            seed::REGISTRY,
            "/applicability"@,
            body,
            AwaitingView::Binding { profile, subject, from, rest },
        )
    }
}

fn on_bound(
    pilot: &Pilot,
    body: String,
    profile: String,
    subject: String,
    from: String,
    rest: Vec<String>,
    reply: &Option<HttpText>,
) -> (r: Turn)
    ensures
        r@ == bound_turn(
            pilot.dir@,
            body@,
            profile@,
            subject@,
            from@,
            text::views(rest@),
            *reply,
        ),
{
    let bound = match reply {
        Some(answer) => contains_name(
            &sorted_profiles(&parse_or_null(answer.body.as_str())),
            profile.as_str(),
        ),
        None => false,
    };
    if bound {
        let mut plan = Plan::new();
        plan.say(cat4("  present    ", profile.as_str(), " on ", subject.as_str()));
        assert(plan@ =~= seq![StepView::Say("  present    "@ + profile@ + " on "@ + subject@)]);
        go_on(plan, pilot, Drawer::Bindings, rest)
    } else {
        send_turn(
            Plan::new(),
            seed::REGISTRY,
            "/applicability".to_string(),
            body,
            Awaiting::Binding { profile, subject, from, rest },
        )
    }
}

/// The line on a binding that was made.
pub open spec fn bound_line(profile: Seq<char>, subject: Seq<char>, from: Seq<char>) -> Seq<char> {
    "  bound      "@ + profile + " on "@ + subject + " (from "@ + from + ")"@
}

/// A binding has been posted.
pub open spec fn binding_turn(
    dir: Seq<char>,
    profile: Seq<char>,
    subject: Seq<char>,
    from: Seq<char>,
    rest: Seq<Seq<char>>,
    reply: Option<HttpText>,
) -> TurnView {
    match reply {
        None => panicked("bindings answered"@),
        Some(r) => if r.status == 201 {
            behind(
                seq![StepView::Say(bound_line(profile, subject, from))],
                onward(dir, Drawer::Bindings, rest),
            )
        } else {
            dead(
                seed::unexpected(
                    "POST /applicability ("@ + profile + ")"@,
                    r.status as nat,
                    r.body@,
                ),
            )
        },
    }
}

/// The answer, if it says that something was created.
fn created(label: &str, reply: HttpText) -> (r: Result<HttpText, String>)
    ensures
        match r {
            Ok(a) => reply.status == 201 && a == reply,
            Err(m) => reply.status != 201 && m@ == seed::unexpected(
                label@,
                reply.status as nat,
                reply.body@,
            ),
        },
{
    let ok: [u16; 1] = [201];
    assert(ok@[0] == 201);
    expect_created(label, reply, ok.as_slice())
}

fn on_binding(
    pilot: &Pilot,
    profile: &str,
    subject: &str,
    from: &str,
    rest: Vec<String>,
    reply: Option<HttpText>,
) -> (r: Turn)
    ensures
        r@ == binding_turn(
            pilot.dir@,
            profile@,
            subject@,
            from@,
            text::views(rest@),
            reply,
        ),
{
    match reply {
        None => panicked_turn("bindings answered"),
        Some(answer) => match created(
            cat3("POST /applicability (", profile, ")").as_str(),
            answer,
        ) {
            Err(complaint) => dead_turn(complaint),
            Ok(_) => {
                let mut plan = Plan::new();
                plan.say(
                    cat4(
                        cat4("  bound      ", profile, " on ", subject).as_str(),
                        " (from ",
                        from,
                        ")",
                    ),
                );
                assert(plan@ =~= seq![StepView::Say(bound_line(profile@, subject@, from@))]);
                go_on(plan, pilot, Drawer::Bindings, rest)
            },
        },
    }
}

// ---------------------------------------------------------------------------
// The demo passport: its creation, its events, its view.
// ---------------------------------------------------------------------------

/// The path of the demo passport.
pub open spec fn passport_path() -> Seq<char> {
    "/passports/"@ + seed::percent(vstd::utf8::encode_utf8(seed::DEMO_URN@))
}

fn passport_at() -> (r: String)
    ensures
        r@ == passport_path(),
{
    cat2("/passports/", encode(seed::DEMO_URN).as_str())
}

/// The demo passport has been asked for: it is created, or there already.
pub open spec fn issued_turn(dir: Seq<char>, reply: Option<HttpText>) -> TurnView {
    match reply {
        None => panicked("issuer answered"@),
        Some(r) => if r.status == 201 {
            TurnView {
                steps: seq![
                    artifact(dir, "01-passport-created.json"@, r.body@),
                    StepView::Say("  issued "@ + seed::DEMO_URN@),
                ],
                after: AfterView::Clock,
            }
        } else if r.status == 409 {
            TurnView {
                steps: seq![
                    StepView::Say(
                        "  already issued "@ + seed::DEMO_URN@ + " (issuer journal replay)"@,
                    ),
                ],
                after: AfterView::Clock,
            }
        } else {
            dead(seed::unexpected("POST /passports"@, r.status as nat, r.body@))
        },
    }
}

fn on_issued(pilot: &Pilot, reply: Option<HttpText>) -> (r: Turn)
    ensures
        r@ == issued_turn(pilot.dir@, reply),
{
    match reply {
        None => panicked_turn("issuer answered"),
        Some(answer) => {
            let ok: [u16; 2] = [201, 409];
            assert(ok@[0] == 201 && ok@[1] == 409);
            assert(ok@.contains(answer.status) <==> answer.status == 201 || answer.status == 409);
            match expect_created("POST /passports", answer, ok.as_slice()) {
                Err(complaint) => dead_turn(complaint),
                Ok(got) => {
                    let mut plan = Plan::new();
                    if got.status == 201 {
                        plan.then_do(
                            write_artifact(
                                artifact_dir(pilot).as_str(),
                                "01-passport-created.json",
                                got.body.as_str(),
                            ),
                        );
                        plan.say(cat2("  issued ", seed::DEMO_URN));
                        assert(plan@ =~= seq![
                            artifact(pilot.dir@, "01-passport-created.json"@, got.body@),
                            StepView::Say("  issued "@ + seed::DEMO_URN@),
                        ]);
                    } else {
                        plan.say(
                            cat3("  already issued ", seed::DEMO_URN, " (issuer journal replay)"),
                        );
                        assert(plan@ =~= seq![
                            StepView::Say(
                                "  already issued "@ + seed::DEMO_URN@
                                    + " (issuer journal replay)"@,
                            ),
                        ]);
                    }
                    Turn { plan, after: After::Clock }
                },
            }
        },
    }
}

/// The clock has been read.
pub open spec fn clock_turn(reading: Seq<char>) -> TurnView {
    fetch(
        Seq::empty(),
        seed::ISSUER,
        passport_path(),
        AwaitingView::Log { now: text::trim(reading) },
    )
}

/// The clock has been read: the issuer is asked for the events that the log
/// has.
pub fn on_clock(reading: &str) -> (r: Turn)
    ensures
        r@ == clock_turn(reading@),
{
    let now = text_of(trimmed(chars_of(reading).as_slice()));
    fetch_turn(Plan::new(), seed::ISSUER, passport_at(), Awaiting::Log { now })
}

/// The next event of the log is appended, or the passport view is fetched
/// where it has them all.
pub open spec fn append(now: Seq<char>, i: nat) -> TurnView {
    if i < seed::EVENTS {
        send(
            Seq::empty(),
            seed::ISSUER,
            passport_path() + "/events"@,
            json::compact_text(seed::event_doc(seed::event(i as int, now))),
            AwaitingView::Appended { now, i },
        )
    } else {
        fetch(
            seq![StepView::Say("  log: 5/5 events (as-of-reconstructable)"@)],
            seed::ISSUER,
            passport_path(),
            AwaitingView::Passport,
        )
    }
}

fn append_event(plan: Plan, now: String, i: u8) -> (r: Turn)
    ensures
        r@ == behind(plan@, append(now@, i as nat)),
{
    if i < seed::EVENTS {
        let body = event_body(i, now.as_str());
        assert(plan@ =~= plan@ + Seq::<StepView>::empty());
        send_turn(
            plan,
            seed::ISSUER,
            cat2(passport_at().as_str(), "/events"),
            body,
            Awaiting::Appended { now, i },
        )
    } else {
        let mut plan = plan;
        let ghost before = plan@;
        plan.say_text("  log: 5/5 events (as-of-reconstructable)");
        assert(plan@ =~= before + seq![
            StepView::Say("  log: 5/5 events (as-of-reconstructable)"@),
        ]);
        fetch_turn(plan, seed::ISSUER, passport_at(), Awaiting::Passport)
    }
}

/// The number of events that the log has, as the issuer says.
pub open spec fn recorded(reply: Option<HttpText>) -> nat {
    match reply {
        Some(r) => match json::integer(json::field(json::parsed_or_null(r.body@), "events"@)) {
            Some(n) => n as nat,
            None => 0,
        },
        None => 0,
    }
}

/// The issuer has been asked for the events that the log has.
pub open spec fn log_turn(now: Seq<char>, reply: Option<HttpText>) -> TurnView {
    append(now, recorded(reply))
}

fn on_log(now: String, reply: &Option<HttpText>) -> (r: Turn)
    ensures
        r@ == log_turn(now@, *reply),
{
    let have: u64 = match reply {
        Some(answer) => match parse_or_null(answer.body.as_str()).get("events") {
            Some(v) => match v.as_u64() {
                Some(n) => n,
                None => 0,
            },
            None => 0,
        },
        None => 0,
    };
    let from: u8 = if have < seed::EVENTS as u64 {
        have as u8
    } else {
        seed::EVENTS
    };
    let ghost at = now@;
    let r = append_event(Plan::new(), now, from);
    proof {
        assert(append(at, from as nat) == append(at, recorded(*reply)));
        lemma_behind_nothing(append(at, recorded(*reply)));
    }
    r
}

/// The line on an event that was appended.
pub open spec fn event_line(i: nat, token: Seq<char>, kind: Seq<char>) -> Seq<char> {
    "  event "@ + decimal::decimal(i + 1) + "/5: "@ + token + " ("@ + kind + ")"@
}

/// An event has been posted.
pub open spec fn appended_turn(now: Seq<char>, i: nat, reply: Option<HttpText>) -> TurnView {
    let token = seed::event(i as int, now).token;
    match reply {
        None => panicked("events answered"@),
        Some(r) => if r.status == 201 {
            behind(
                seq![
                    StepView::Say(
                        event_line(
                            i,
                            token,
                            json::text_at(json::parsed_or_null(r.body@), seq!["event_type"@]),
                        ),
                    ),
                ],
                append(now, i + 1),
            )
        } else {
            dead(
                seed::unexpected(
                    "POST /passports/{urn}/events ("@ + token + ")"@,
                    r.status as nat,
                    r.body@,
                ),
            )
        },
    }
}

fn on_appended(now: String, i: u8, reply: Option<HttpText>) -> (r: Turn)
    ensures
        r@ == appended_turn(now@, i as nat, reply),
{
    let token = event_token(i);
    assert(token@ == seed::event(i as int, now@).token);
    match reply {
        None => panicked_turn("events answered"),
        Some(answer) => match created(
            cat3("POST /passports/{urn}/events (", token, ")").as_str(),
            answer,
        ) {
            Err(complaint) => dead_turn(complaint),
            Ok(got) => {
                let kind = text1(&parse_or_null(got.body.as_str()), "event_type");
                let mut plan = Plan::new();
                plan.say(
                    cat4(
                        cat4(
                            "  event ",
                            decimal_of(i as u64 + 1).as_str(),
                            "/5: ",
                            token,
                        ).as_str(),
                        " (",
                        kind.as_str(),
                        ")",
                    ),
                );
                assert(plan@ =~= seq![StepView::Say(event_line(i as nat, token@, kind@))]);
                let next: u8 = if i < seed::EVENTS {
                    i + 1
                } else {
                    i
                };
                assert(append(now@, next as nat) == append(now@, i as nat + 1));
                append_event(plan, now, next)
            },
        },
    }
}

/// The passport view has been asked for.
pub open spec fn passport_turn(dir: Seq<char>, reply: Option<HttpText>) -> TurnView {
    match reply {
        None => dead("cannot fetch the passport view"@),
        Some(r) => {
            let doc = json::parsed_or_null(r.body@);
            let log_head = json::text_at(doc, seq!["log_head"@]);
            send(
                seq![
                    artifact(dir, "02-passport-view.json"@, r.body@),
                    StepView::Write {
                        path: path::below(dir, "passports/pilot-e8.json"@),
                        text: r.body@,
                        fault: FaultView::Panic,
                    },
                    StepView::Say(
                        "  view: status "@ + json::text_at(doc, seq!["status"@])
                            + " · log_head "@ + seed::beginning(log_head, 16) + "…"@,
                    ),
                    StepView::Say(
                        "== [6] Tier-A pack + CLI verify (anchor from the issuer /keyring)"@,
                    ),
                ],
                seed::ISSUER,
                passport_path() + "/pack"@,
                "{}"@,
                AwaitingView::Packed { view: r.body@, log_head },
            )
        },
    }
}

fn on_passport(pilot: &Pilot, reply: Option<HttpText>) -> (r: Turn)
    ensures
        r@ == passport_turn(pilot.dir@, reply),
{
    match reply {
        None => dead_turn("cannot fetch the passport view".to_string()),
        Some(answer) => {
            let doc = parse_or_null(answer.body.as_str());
            let log_head = text1(&doc, "log_head");
            let mut plan = Plan::new();
            plan.then_do(
                write_artifact(
                    artifact_dir(pilot).as_str(),
                    "02-passport-view.json",
                    answer.body.as_str(),
                ),
            );
            plan.then_do(
                Step::Write {
                    path: join(pilot.dir.as_str(), "passports/pilot-e8.json"),
                    text: answer.body.clone(),
                    fault: Fault::Panic,
                },
            );
            plan.say(
                cat5(
                    "  view: status ",
                    text1(&doc, "status").as_str(),
                    " · log_head ",
                    beginning_of(log_head.as_str(), 16).as_str(),
                    "…",
                ),
            );
            plan.say_text("== [6] Tier-A pack + CLI verify (anchor from the issuer /keyring)");
            let turn = send_turn(
                plan,
                seed::ISSUER,
                cat2(passport_at().as_str(), "/pack"),
                "{}".to_string(),
                Awaiting::Packed { view: answer.body, log_head },
            );
            assert(turn@.steps =~= passport_turn(pilot.dir@, reply).steps);
            turn
        },
    }
}

// ---------------------------------------------------------------------------
// The pack and its verification.
// ---------------------------------------------------------------------------

/// The pack has been asked for.
pub open spec fn packed_turn(
    dir: Seq<char>,
    view: Seq<char>,
    log_head: Seq<char>,
    reply: Option<HttpText>,
) -> TurnView {
    match reply {
        None => panicked("pack answered"@),
        Some(r) => if r.status == 201 {
            fetch(
                seq![artifact(dir, "03-tier-a-pack.json"@, r.body@)],
                seed::ISSUER,
                "/keyring"@,
                AwaitingView::Keyring { view, log_head, pack: r.body@ },
            )
        } else {
            dead(seed::unexpected("POST /passports/{urn}/pack"@, r.status as nat, r.body@))
        },
    }
}

fn on_packed(pilot: &Pilot, view: String, log_head: String, reply: Option<HttpText>) -> (r: Turn)
    ensures
        r@ == packed_turn(pilot.dir@, view@, log_head@, reply),
{
    match reply {
        None => panicked_turn("pack answered"),
        Some(answer) => match created("POST /passports/{urn}/pack", answer) {
            Err(complaint) => dead_turn(complaint),
            Ok(got) => {
                let mut plan = Plan::new();
                plan.then_do(
                    write_artifact(
                        artifact_dir(pilot).as_str(),
                        "03-tier-a-pack.json",
                        got.body.as_str(),
                    ),
                );
                assert(plan@ =~= seq![artifact(pilot.dir@, "03-tier-a-pack.json"@, got.body@)]);
                fetch_turn(
                    plan,
                    seed::ISSUER,
                    "/keyring".to_string(),
                    Awaiting::Keyring { view, log_head, pack: got.body },
                )
            },
        },
    }
}

/// The arguments with which the pack is verified: as a document, at any age.
pub open spec fn verify_args(pack: Seq<char>, anchor: Seq<char>) -> Seq<Seq<char>> {
    seq!["verify"@, pack, "--anchor"@, anchor, "--max-age"@, "0"@, "--json"@]
}

fn args_to_verify(pack: String, anchor: String) -> (r: Vec<String>)
    ensures
        text::views(r@) == verify_args(pack@, anchor@),
{
    let ghost expected = verify_args(pack@, anchor@);
    let mut r: Vec<String> = Vec::new();
    r.push("verify".to_string());
    r.push(pack);
    r.push("--anchor".to_string());
    r.push(anchor);
    r.push("--max-age".to_string());
    r.push("0".to_string());
    r.push("--json".to_string());
    assert(text::views(r@) =~= expected);
    r
}

/// The line on the pack.
pub open spec fn pack_line(pack: JsonView, anchor: Seq<char>) -> Seq<char> {
    "  pack: "@ + json::text_at(pack, seq!["bytes"@]) + " bytes, QR v"@ + json::text_at(
        pack,
        seq!["qr_version"@],
    ) + ", anchor "@ + seed::beginning(anchor, 16) + "… (ECDSA-P256)"@
}

/// The keyring has been asked for.
pub open spec fn keyring_turn(
    dir: Seq<char>,
    family: Seq<char>,
    view: Seq<char>,
    log_head: Seq<char>,
    pack: Seq<char>,
    reply: Option<HttpText>,
) -> TurnView {
    match reply {
        None => dead("cannot fetch the keyring"@),
        Some(r) => {
            let doc = json::parsed_or_null(pack);
            let anchor = json::text_at(
                json::parsed_or_null(r.body@),
                seq!["roles"@, "pack"@, "public"@],
            );
            let hex = path::below(demo_dir(dir), "pack.hex"@);
            TurnView {
                steps: seq![
                    artifact(dir, "04-issuer-keyring.json"@, r.body@),
                    StepView::Write {
                        path: hex,
                        text: json::text_at(doc, seq!["pack"@]),
                        fault: FaultView::Panic,
                    },
                    StepView::Say(pack_line(doc, anchor)),
                ],
                after: AfterView::RunTool {
                    program: tool(family),
                    args: verify_args(hex, anchor),
                    view,
                    log_head,
                },
            }
        },
    }
}

fn on_keyring(
    pilot: &Pilot,
    view: String,
    log_head: String,
    pack: &str,
    reply: Option<HttpText>,
) -> (r: Turn)
    ensures
        r@ == keyring_turn(pilot.dir@, pilot.family@, view@, log_head@, pack@, reply),
{
    match reply {
        None => dead_turn("cannot fetch the keyring".to_string()),
        Some(answer) => {
            let doc = parse_or_null(pack);
            let anchor = text3(&parse_or_null(answer.body.as_str()), "roles", "pack", "public");
            let dir = artifact_dir(pilot);
            let hex = join(dir.as_str(), "pack.hex");
            let mut plan = Plan::new();
            plan.then_do(
                write_artifact(dir.as_str(), "04-issuer-keyring.json", answer.body.as_str()),
            );
            plan.then_do(
                Step::Write { path: hex.clone(), text: text1(&doc, "pack"), fault: Fault::Panic },
            );
            plan.say(
                cat3(
                    cat5(
                        "  pack: ",
                        text1(&doc, "bytes").as_str(),
                        " bytes, QR v",
                        text1(&doc, "qr_version").as_str(),
                        ", anchor ",
                    ).as_str(),
                    beginning_of(anchor.as_str(), 16).as_str(),
                    "… (ECDSA-P256)",
                ),
            );
            let program = join(pilot.family.as_str(), "unidpp-cli/target/release/unidpp");
            let turn = Turn {
                plan,
                after: After::RunTool { program, args: args_to_verify(hex, anchor), view, log_head },
            };
            assert(turn@.steps =~= keyring_turn(
                pilot.dir@,
                pilot.family@,
                view@,
                log_head@,
                pack@,
                reply,
            ).steps);
            turn
        },
    }
}

/// What the command line tool printed: a JSON document, or else a text.
pub open spec fn printed(stdout: Seq<char>) -> JsonView {
    match json::parsed(stdout) {
        Ok(doc) => doc,
        Err(_) => JsonView::Object(map!["raw"@ => JsonView::Text(stdout)]),
    }
}

/// The grade in what the command line tool printed.
pub open spec fn grade(doc: JsonView) -> Seq<char> {
    let named = match json::get(doc, "verdict"@) {
        Some(v) => Some(v),
        None => json::get(doc, "grade"@),
    };
    match named {
        Some(JsonView::Text(t)) => t,
        _ => "?"@,
    }
}

/// The document with the tool's exit code in it.
pub open spec fn with_code(doc: JsonView, code: nat) -> JsonView {
    JsonView::Object(
        (if doc is Object {
            doc->Object_0
        } else {
            Map::empty()
        }).insert("exit_code"@, json::number(code)),
    )
}

/// The command line tool has been run. Without an exit code of its own it is
/// taken to have failed. Its verdict is kept whatever it is; a document that
/// can have no entries is none.
pub open spec fn verdict_turn(
    dir: Seq<char>,
    view: Seq<char>,
    log_head: Seq<char>,
    code: Option<u8>,
    stdout: Seq<u8>,
) -> TurnView {
    let exit = match code {
        Some(c) => c as nat,
        None => 2,
    };
    let out = printed(text::lossy(stdout));
    if !(out is Object || out is Null) {
        panicked("the verdict holds no entries"@)
    } else {
        let doc = with_code(out, exit);
        let kept = artifact(dir, "05-cli-verify.json"@, json::pretty_text(doc));
        if exit != 0 {
            TurnView {
                steps: seq![kept],
                after: AfterView::Die(
                    "CLI verify graded '"@ + grade(doc) + "' (exit "@ + decimal::decimal(exit)
                        + "), expected PASS (0)"@,
                ),
            }
        } else {
            send(
                seq![
                    kept,
                    StepView::Say(
                        "  verified: PASS (exit 0) — the three readings named, coverage complete"@,
                    ),
                    StepView::Say(
                        "== [7] notarized Tier-C snapshot (anchored in the transparency log)"@,
                    ),
                ],
                seed::ARCHIVE,
                "/snapshots"@,
                json::compact_text(seed::snapshot(view, log_head)),
                AwaitingView::Snapshot,
            )
        }
    }
}

fn printed_json(stdout: &str) -> (r: Json)
    ensures
        r@ == printed(stdout@),
{
    match parse_json(stdout) {
        Ok(doc) => doc,
        Err(_) => {
            let mut fields = Fields::new();
            fields.put("raw", text_json(stdout));
            fields.done()
        },
    }
}

fn graded(doc: &Json) -> (r: String)
    ensures
        r@ == grade(doc@),
{
    let named = match doc.get("verdict") {
        Some(v) => Some(v),
        None => doc.get("grade"),
    };
    match named {
        Some(Json::Text(t)) => t.clone(),
        _ => "?".to_string(),
    }
}

/// The command line tool has been run: only its pass leads on.
pub fn on_verdict(
    pilot: &Pilot,
    view: &str,
    log_head: &str,
    code: Option<u8>,
    stdout: &[u8],
) -> (r: Turn)
    ensures
        r@ == verdict_turn(pilot.dir@, view@, log_head@, code, stdout@),
{
    let exit: u8 = match code {
        Some(c) => c,
        None => 2,
    };
    let out = printed_json(text_from(stdout).as_str());
    let fits = match &out {
        Json::Object(_) => true,
        Json::Null => true,
        _ => false,
    };
    assert(fits == (out@ is Object || out@ is Null));
    if !fits {
        return panicked_turn("the verdict holds no entries");
    }
    let doc = out.with("exit_code", number_json(exit as u64));
    let mut plan = Plan::new();
    plan.then_do(
        write_artifact(
            artifact_dir(pilot).as_str(),
            "05-cli-verify.json",
            pretty(&doc).as_str(),
        ),
    );
    if exit != 0 {
        let complaint = cat5(
            "CLI verify graded '",
            graded(&doc).as_str(),
            "' (exit ",
            decimal_of(exit as u64).as_str(),
            "), expected PASS (0)",
        );
        let turn = Turn { plan, after: After::Die(complaint) };
        assert(turn@.steps =~= verdict_turn(pilot.dir@, view@, log_head@, code, stdout@).steps);
        turn
    } else {
        plan.say_text("  verified: PASS (exit 0) — the three readings named, coverage complete");
        plan.say_text("== [7] notarized Tier-C snapshot (anchored in the transparency log)");
        let turn = send_turn(
            plan,
            seed::ARCHIVE,
            "/snapshots".to_string(),
            snapshot_body(view, log_head),
            Awaiting::Snapshot,
        );
        assert(turn@.steps =~= verdict_turn(pilot.dir@, view@, log_head@, code, stdout@).steps);
        turn
    }
}

// ---------------------------------------------------------------------------
// The snapshot, the projector's views, the gateway's renders.
// ---------------------------------------------------------------------------

/// The lens of a market.
pub open spec fn lens(jp: bool) -> Seq<char> {
    if jp {
        seed::JP_LENS@
    } else {
        seed::EU_LENS@
    }
}

/// The short name of a market.
pub open spec fn market(jp: bool) -> Seq<char> {
    if jp {
        "jp"@
    } else {
        "eu"@
    }
}

fn lens_of(jp: bool) -> (r: &'static str)
    ensures
        r@ == lens(jp),
{
    if jp {
        seed::JP_LENS
    } else {
        seed::EU_LENS
    }
}

fn market_of(jp: bool) -> (r: &'static str)
    ensures
        r@ == market(jp),
{
    if jp {
        "jp"
    } else {
        "eu"
    }
}

/// The path of the projector's view through a lens.
pub open spec fn lens_path(jp: bool) -> Seq<char> {
    "/view?passport="@ + seed::percent(vstd::utf8::encode_utf8(seed::DEMO_URN@)) + "&profile="@
        + seed::percent(vstd::utf8::encode_utf8(lens(jp))) + "&actor=importer&at="@
        + seed::VIEW_AT@
}

fn lens_at(jp: bool) -> (r: String)
    ensures
        r@ == lens_path(jp),
{
    cat2(
        cat5(
            "/view?passport=",
            encode(seed::DEMO_URN).as_str(),
            "&profile=",
            encode(lens_of(jp)).as_str(),
            "&actor=importer&at=",
        ).as_str(),
        seed::VIEW_AT,
    )
}

/// The snapshot has been asked for.
pub open spec fn snapshot_turn(dir: Seq<char>, reply: Option<HttpText>) -> TurnView {
    match reply {
        None => panicked("archive answered"@),
        Some(r) => if r.status == 201 {
            let doc = json::parsed_or_null(r.body@);
            fetch(
                seq![
                    artifact(dir, "06-archive-snapshot.json"@, r.body@),
                    StepView::Say(
                        "  snapshot "@ + json::text_at(doc, seq!["snapshot_id"@])
                            + " notarized, anchoring: "@ + json::text_at(
                            doc,
                            seq!["oais"@, "provenance"@, "anchoring"@, "status"@],
                        ),
                    ),
                    StepView::Say(
                        "== [8] projector two-lens views (at "@ + seed::VIEW_AT@ + ")"@,
                    ),
                ],
                seed::PROJECTOR,
                lens_path(false),
                AwaitingView::Lens { jp: false },
            )
        } else {
            dead(seed::unexpected("POST /snapshots"@, r.status as nat, r.body@))
        },
    }
}

fn on_snapshot(pilot: &Pilot, reply: Option<HttpText>) -> (r: Turn)
    ensures
        r@ == snapshot_turn(pilot.dir@, reply),
{
    match reply {
        None => panicked_turn("archive answered"),
        Some(answer) => match created("POST /snapshots", answer) {
            Err(complaint) => dead_turn(complaint),
            Ok(got) => {
                let doc = parse_or_null(got.body.as_str());
                let mut plan = Plan::new();
                plan.then_do(
                    write_artifact(
                        artifact_dir(pilot).as_str(),
                        "06-archive-snapshot.json",
                        got.body.as_str(),
                    ),
                );
                plan.say(
                    cat4(
                        "  snapshot ",
                        text1(&doc, "snapshot_id").as_str(),
                        " notarized, anchoring: ",
                        text4(&doc, "oais", "provenance", "anchoring", "status").as_str(),
                    ),
                );
                plan.say(cat3("== [8] projector two-lens views (at ", seed::VIEW_AT, ")"));
                let turn = fetch_turn(
                    plan,
                    seed::PROJECTOR,
                    lens_at(false),
                    Awaiting::Lens { jp: false },
                );
                assert(turn@.steps =~= snapshot_turn(pilot.dir@, reply).steps);
                turn
            },
        },
    }
}

/// The line on the projector's view through a lens.
pub open spec fn lens_line(jp: bool, doc: JsonView) -> Seq<char> {
    "  "@ + market(jp) + " view: source "@ + json::text_at(doc, seq!["profile"@, "source"@])
        + ", coverage "@ + json::text_at(doc, seq!["coverage"@, "elements_present"@]) + "/"@
        + json::text_at(doc, seq!["coverage"@, "elements_required"@]) + " ("@ + json::text_at(
        doc,
        seq!["coverage"@, "complete"@],
    ) + ")"@
}

/// What is done with the projector's view through a lens.
pub open spec fn lens_steps(dir: Seq<char>, jp: bool, body: Seq<char>) -> Seq<StepView> {
    seq![
        artifact(dir, "07-projector-view-"@ + market(jp) + ".json"@, body),
        StepView::Say(lens_line(jp, json::parsed_or_null(body))),
    ]
}

/// The projector's view through a lens has been asked for.
pub open spec fn lens_turn(dir: Seq<char>, jp: bool, reply: Option<HttpText>) -> TurnView {
    match reply {
        None => dead("projector view failed for "@ + lens(jp)),
        Some(r) => if jp {
            fetch(
                lens_steps(dir, jp, r.body@).push(
                    StepView::Say("== [9] gateway renders (UNTP triad + EN 18222)"@),
                ),
                seed::GATEWAY,
                "/untp/product/"@ + seed::percent(vstd::utf8::encode_utf8(seed::DEMO_URN@)),
                AwaitingView::Untp,
            )
        } else {
            fetch(
                lens_steps(dir, jp, r.body@),
                seed::PROJECTOR,
                lens_path(true),
                AwaitingView::Lens { jp: true },
            )
        },
    }
}

fn on_lens(pilot: &Pilot, jp: bool, reply: &Option<HttpText>) -> (r: Turn)
    ensures
        r@ == lens_turn(pilot.dir@, jp, *reply),
{
    match reply {
        None => dead_turn(cat2("projector view failed for ", lens_of(jp))),
        Some(answer) => {
            let doc = parse_or_null(answer.body.as_str());
            let mut plan = Plan::new();
            plan.then_do(
                write_artifact(
                    artifact_dir(pilot).as_str(),
                    cat3("07-projector-view-", market_of(jp), ".json").as_str(),
                    answer.body.as_str(),
                ),
            );
            plan.say(
                cat4(
                    cat4(
                        cat5(
                            "  ",
                            market_of(jp),
                            " view: source ",
                            text2(&doc, "profile", "source").as_str(),
                            ", coverage ",
                        ).as_str(),
                        text2(&doc, "coverage", "elements_present").as_str(),
                        "/",
                        text2(&doc, "coverage", "elements_required").as_str(),
                    ).as_str(),
                    " (",
                    text2(&doc, "coverage", "complete").as_str(),
                    ")",
                ),
            );
            assert(plan@ =~= lens_steps(pilot.dir@, jp, answer.body@));
            if jp {
                plan.say_text("== [9] gateway renders (UNTP triad + EN 18222)");
                fetch_turn(
                    plan,
                    seed::GATEWAY,
                    cat2("/untp/product/", encode(seed::DEMO_URN).as_str()),
                    Awaiting::Untp,
                )
            } else {
                fetch_turn(plan, seed::PROJECTOR, lens_at(true), Awaiting::Lens { jp: true })
            }
        },
    }
}

/// The line on the gateway's UNTP render.
pub open spec fn untp_line(doc: JsonView) -> Seq<char> {
    "  UNTP triad: source "@ + json::text_at(doc, seq!["rendering"@, "source"@]) + ", outcome "@
        + json::text_at(doc, seq!["verdict"@, "outcome"@]) + " ("@ + json::text_at(
        doc,
        seq!["verdict"@, "coverage"@, "signatures"@, "verified"@],
    ) + " signatures verified)"@
}

/// The gateway's UNTP render has been asked for.
pub open spec fn untp_turn(dir: Seq<char>, reply: Option<HttpText>) -> TurnView {
    match reply {
        None => dead("UNTP render failed"@),
        Some(r) => fetch(
            seq![
                artifact(dir, "08-gateway-untp.json"@, r.body@),
                StepView::Say(untp_line(json::parsed_or_null(r.body@))),
            ],
            seed::GATEWAY,
            "/en18222/v1/dppsByProductId/"@ + seed::GTIN_FIXTURE@ + "?representation=full"@,
            AwaitingView::Render,
        ),
    }
}

fn on_untp(pilot: &Pilot, reply: &Option<HttpText>) -> (r: Turn)
    ensures
        r@ == untp_turn(pilot.dir@, *reply),
{
    match reply {
        None => dead_turn("UNTP render failed".to_string()),
        Some(answer) => {
            let doc = parse_or_null(answer.body.as_str());
            let mut plan = Plan::new();
            plan.then_do(
                write_artifact(
                    artifact_dir(pilot).as_str(),
                    "08-gateway-untp.json",
                    answer.body.as_str(),
                ),
            );
            plan.say(
                cat3(
                    cat5(
                        "  UNTP triad: source ",
                        text2(&doc, "rendering", "source").as_str(),
                        ", outcome ",
                        text2(&doc, "verdict", "outcome").as_str(),
                        " (",
                    ).as_str(),
                    text4(&doc, "verdict", "coverage", "signatures", "verified").as_str(),
                    " signatures verified)",
                ),
            );
            assert(plan@ =~= seq![
                artifact(pilot.dir@, "08-gateway-untp.json"@, answer.body@),
                StepView::Say(untp_line(json::parsed_or_null(answer.body@))),
            ]);
            fetch_turn(
                plan,
                seed::GATEWAY,
                cat3("/en18222/v1/dppsByProductId/", seed::GTIN_FIXTURE, "?representation=full"),
                Awaiting::Render,
            )
        },
    }
}

/// The day of a moment at which applicability is asked for.
pub open spec fn day(later: bool) -> Seq<char> {
    if later {
        "2028-06-01"@
    } else {
        "2027-06-01"@
    }
}

fn day_of(later: bool) -> (r: &'static str)
    ensures
        r@ == day(later),
{
    if later {
        "2028-06-01"
    } else {
        "2027-06-01"
    }
}

/// The path of the applicability at a moment.
pub open spec fn applicability_path(later: bool) -> Seq<char> {
    "/applicability?product_type=momiji:e8&at="@ + day(later) + "T00:00:00Z"@
}

fn applicability_at(later: bool) -> (r: String)
    ensures
        r@ == applicability_path(later),
{
    cat3("/applicability?product_type=momiji:e8&at=", day_of(later), "T00:00:00Z")
}

/// The gateway's EN 18222 render has been asked for.
pub open spec fn render_turn(dir: Seq<char>, reply: Option<HttpText>) -> TurnView {
    match reply {
        None => dead("EN 18222 render failed"@),
        Some(r) => fetch(
            seq![
                artifact(dir, "09-gateway-en18222.json"@, r.body@),
                StepView::Say(
                    "  EN 18222 render: dpp "@ + json::text_at(
                        json::parsed_or_null(r.body@),
                        seq!["digitalProductPassportId"@],
                    ) + " via GTIN "@ + seed::GTIN_FIXTURE@,
                ),
                StepView::Say("== [10] as-of applicability for momiji:e8"@),
            ],
            seed::REGISTRY,
            applicability_path(false),
            AwaitingView::AsOf { later: false },
        ),
    }
}

fn on_render(pilot: &Pilot, reply: &Option<HttpText>) -> (r: Turn)
    ensures
        r@ == render_turn(pilot.dir@, *reply),
{
    match reply {
        None => dead_turn("EN 18222 render failed".to_string()),
        Some(answer) => {
            let doc = parse_or_null(answer.body.as_str());
            let mut plan = Plan::new();
            plan.then_do(
                write_artifact(
                    artifact_dir(pilot).as_str(),
                    "09-gateway-en18222.json",
                    answer.body.as_str(),
                ),
            );
            plan.say(
                cat4(
                    "  EN 18222 render: dpp ",
                    text1(&doc, "digitalProductPassportId").as_str(),
                    " via GTIN ",
                    seed::GTIN_FIXTURE,
                ),
            );
            plan.say_text("== [10] as-of applicability for momiji:e8");
            let turn = fetch_turn(
                plan,
                seed::REGISTRY,
                applicability_at(false),
                Awaiting::AsOf { later: false },
            );
            assert(turn@.steps =~= render_turn(pilot.dir@, *reply).steps);
            turn
        },
    }
}

/// The name of the artifact with the applicability at a moment.
pub open spec fn applicability_file(later: bool) -> Seq<char> {
    if later {
        "11-applicability-2028-06-01.json"@
    } else {
        "10-applicability-2027-06-01.json"@
    }
}

/// What is done with the applicability at a moment.
pub open spec fn as_of_steps(dir: Seq<char>, later: bool, body: Seq<char>) -> Seq<StepView> {
    seq![
        artifact(dir, applicability_file(later), body),
        StepView::Say(
            "  at "@ + day(later) + ": "@ + text::join(
                seed::profiles(json::parsed_or_null(body)),
                ", "@,
            ),
        ),
    ]
}

/// The applicability at a moment has been asked for.
pub open spec fn as_of_turn(dir: Seq<char>, later: bool, reply: Option<HttpText>) -> TurnView {
    match reply {
        None => dead("as-of query failed"@),
        Some(r) => if later {
            TurnView {
                steps: as_of_steps(dir, later, r.body@).push(StepView::Say(""@)).push(
                    StepView::Say("== demo artifacts:"@),
                ),
                after: AfterView::ListArtifacts(demo_dir(dir)),
            }
        } else {
            fetch(
                as_of_steps(dir, later, r.body@),
                seed::REGISTRY,
                applicability_path(true),
                AwaitingView::AsOf { later: true },
            )
        },
    }
}

fn on_as_of(pilot: &Pilot, later: bool, reply: &Option<HttpText>) -> (r: Turn)
    ensures
        r@ == as_of_turn(pilot.dir@, later, *reply),
{
    match reply {
        None => dead_turn("as-of query failed".to_string()),
        Some(answer) => {
            let name = if later {
                "11-applicability-2028-06-01.json"
            } else {
                "10-applicability-2027-06-01.json"
            };
            let names = sorted_profiles(&parse_or_null(answer.body.as_str()));
            let mut plan = Plan::new();
            plan.then_do(
                write_artifact(artifact_dir(pilot).as_str(), name, answer.body.as_str()),
            );
            plan.say(
                cat4("  at ", day_of(later), ": ", joined(names.as_slice(), ", ").as_str()),
            );
            assert(plan@ =~= as_of_steps(pilot.dir@, later, answer.body@));
            if later {
                plan.say_text("");
                plan.say_text("== demo artifacts:");
                Turn { plan, after: After::ListArtifacts(artifact_dir(pilot)) }
            } else {
                fetch_turn(
                    plan,
                    seed::REGISTRY,
                    applicability_at(true),
                    Awaiting::AsOf { later: true },
                )
            }
        },
    }
}

/// The line on an artifact.
pub open spec fn artifact_line() -> spec_fn(Seq<char>) -> StepView {
    |name: Seq<char>| StepView::Say("   demo/"@ + name)
}

/// The names among the artifacts are there.
pub open spec fn artifacts_turn(names: Seq<Seq<char>>) -> TurnView {
    TurnView {
        steps: order::sorted(names.filter(seed::is_artifact())).map_values(artifact_line()).push(
            StepView::Say(
                "== seed complete — the stack stays up (unidpp-stack status, unidpp-stack down)"@,
            ),
        ),
        after: AfterView::Done,
    }
}

/// The names among the artifacts are there: they are listed, and the
/// walkthrough is complete.
pub fn on_artifacts(names: &Vec<String>) -> (r: Turn)
    ensures
        r@ == artifacts_turn(text::views(names@)),
{
    let list = sorted_artifacts(names);
    let ghost kept = text::views(list@);
    let mut plan = Plan::new();
    let mut i: usize = 0;
    assert(plan@ =~= kept.take(0).map_values(artifact_line()));
    while i < list.len()
        invariant
            i <= list.len(),
            kept == text::views(list@),
            plan@ == kept.take(i as int).map_values(artifact_line()),
        decreases list.len() - i,
    {
        plan.say(cat2("   demo/", list[i].as_str()));
        assert(plan@ =~= kept.take(i + 1).map_values(artifact_line()));
        i += 1;
    }
    assert(kept.take(i as int) =~= kept);
    plan.say_text(
        "== seed complete — the stack stays up (unidpp-stack status, unidpp-stack down)",
    );
    Turn { plan, after: After::Done }
}

/// What follows from the answer of a service.
pub open spec fn reply_turn(
    dir: Seq<char>,
    family: Seq<char>,
    awaiting: AwaitingView,
    reply: Option<HttpText>,
) -> TurnView {
    match awaiting {
        AwaitingView::Health(i) => health_turn(family, i, reply),
        AwaitingView::Units => units_turn(dir, reply),
        AwaitingView::Seeded => seeded_turn(dir, reply),
        AwaitingView::Registered { drawer, item, rest } => registered_turn(
            dir,
            drawer,
            item,
            rest,
            reply,
        ),
        AwaitingView::Bound { body, profile, subject, from, rest } => bound_turn(
            dir,
            body,
            profile,
            subject,
            from,
            rest,
            reply,
        ),
        AwaitingView::Binding { profile, subject, from, rest } => binding_turn(
            dir,
            profile,
            subject,
            from,
            rest,
            reply,
        ),
        AwaitingView::Issued => issued_turn(dir, reply),
        AwaitingView::Log { now } => log_turn(now, reply),
        AwaitingView::Appended { now, i } => appended_turn(now, i, reply),
        AwaitingView::Passport => passport_turn(dir, reply),
        AwaitingView::Packed { view, log_head } => packed_turn(dir, view, log_head, reply),
        AwaitingView::Keyring { view, log_head, pack } => keyring_turn(
            dir,
            family,
            view,
            log_head,
            pack,
            reply,
        ),
        AwaitingView::Snapshot => snapshot_turn(dir, reply),
        AwaitingView::Lens { jp } => lens_turn(dir, jp, reply),
        AwaitingView::Untp => untp_turn(dir, reply),
        AwaitingView::Render => render_turn(dir, reply),
        AwaitingView::AsOf { later } => as_of_turn(dir, later, reply),
    }
}

/// What follows from the answer of a service; none, where it gave none.
pub fn on_reply(pilot: &Pilot, awaiting: Awaiting, reply: Option<HttpText>) -> (r: Turn)
    ensures
        r@ == reply_turn(pilot.dir@, pilot.family@, awaiting@, reply),
{
    match awaiting {
        Awaiting::Health(i) => on_health(pilot, i, &reply),
        Awaiting::Units => on_units(pilot, &reply),
        Awaiting::Seeded => on_seeded(pilot, reply),
        Awaiting::Registered { drawer, item, rest } => on_registered(
            pilot,
            drawer,
            item.as_str(),
            rest,
            &reply,
        ),
        Awaiting::Bound { body, profile, subject, from, rest } => on_bound(
            pilot,
            body,
            profile,
            subject,
            from,
            rest,
            &reply,
        ),
        Awaiting::Binding { profile, subject, from, rest } => on_binding(
            pilot,
            profile.as_str(),
            subject.as_str(),
            from.as_str(),
            rest,
            reply,
        ),
        Awaiting::Issued => on_issued(pilot, reply),
        Awaiting::Log { now } => on_log(now, &reply),
        Awaiting::Appended { now, i } => on_appended(now, i, reply),
        Awaiting::Passport => on_passport(pilot, reply),
        Awaiting::Packed { view, log_head } => on_packed(pilot, view, log_head, reply),
        Awaiting::Keyring { view, log_head, pack } => on_keyring(
            pilot,
            view,
            log_head,
            pack.as_str(),
            reply,
        ),
        Awaiting::Snapshot => on_snapshot(pilot, reply),
        Awaiting::Lens { jp } => on_lens(pilot, jp, &reply),
        Awaiting::Untp => on_untp(pilot, &reply),
        Awaiting::Render => on_render(pilot, &reply),
        Awaiting::AsOf { later } => on_as_of(pilot, later, &reply),
    }
}

// ---------------------------------------------------------------------------
// Running it again.
// ---------------------------------------------------------------------------

/// The events that are posted from a turn on, where each one is answered
/// alike and at most so many are looked at.
pub open spec fn events_posted(turn: TurnView, answer: HttpText, most: nat) -> Seq<nat>
    decreases most,
{
    match turn.after {
        AfterView::Call(_, AwaitingView::Appended { now, i }) => if most > 0 {
            seq![i] + events_posted(
                appended_turn(now, i, Some(answer)),
                answer,
                (most - 1) as nat,
            )
        } else {
            Seq::empty()
        },
        _ => Seq::empty(),
    }
}

proof fn lemma_events_posted(
    steps: Seq<StepView>,
    now: Seq<char>,
    i: nat,
    answer: HttpText,
    most: nat,
)
    requires
        answer.status == 201,
        i + most >= seed::EVENTS,
    ensures
        events_posted(behind(steps, append(now, i)), answer, most) == if i < seed::EVENTS {
            Seq::new((seed::EVENTS - i) as nat, |k: int| (i + k) as nat)
        } else {
            Seq::empty()
        },
    decreases most,
{
    let turn = behind(steps, append(now, i));
    if i < seed::EVENTS {
        let next = appended_turn(now, i, Some(answer));
        lemma_events_posted(
            seq![
                StepView::Say(
                    event_line(
                        i,
                        seed::event(i as int, now).token,
                        json::text_at(json::parsed_or_null(answer.body@), seq!["event_type"@]),
                    ),
                ),
            ],
            now,
            i + 1,
            answer,
            (most - 1) as nat,
        );
        assert(events_posted(turn, answer, most) == seq![i] + events_posted(
            next,
            answer,
            (most - 1) as nat,
        ));
        assert(events_posted(turn, answer, most) =~= Seq::new(
            (seed::EVENTS - i) as nat,
            |k: int| (i + k) as nat,
        ));
    }
}

/// Events are appended only up to the expected sequence: where the log has
/// some events and each append succeeds, exactly the missing ones are posted,
/// each once and in order.
pub proof fn law_events_are_appended_once(
    now: Seq<char>,
    reply: Option<HttpText>,
    answer: HttpText,
)
    requires
        answer.status == 201,
    ensures
        events_posted(log_turn(now, reply), answer, seed::EVENTS as nat) == Seq::new(
            (if recorded(reply) < seed::EVENTS {
                seed::EVENTS - recorded(reply)
            } else {
                0
            }) as nat,
            |k: int| (recorded(reply) + k) as nat,
        ),
{
    let i = recorded(reply);
    lemma_events_posted(Seq::empty(), now, i, answer, seed::EVENTS as nat);
    lemma_behind_nothing(append(now, i));
    assert(Seq::new(0, |k: int| (i + k) as nat) =~= Seq::<nat>::empty());
}

/// Creations tolerate a conflict: whether an item, a lens or the passport is
/// created or there already, the walkthrough goes on in the same way.
pub proof fn law_creations_tolerate_a_conflict(
    dir: Seq<char>,
    drawer: Drawer,
    item: Seq<char>,
    rest: Seq<Seq<char>>,
    made: HttpText,
    there: HttpText,
)
    requires
        made.status == 201,
        there.status == 409,
    ensures
        registered_turn(dir, drawer, item, rest, Some(made)).after == registered_turn(
            dir,
            drawer,
            item,
            rest,
            Some(there),
        ).after,
        issued_turn(dir, Some(made)).after == issued_turn(dir, Some(there)).after,
        issued_turn(dir, Some(there)).after == AfterView::Clock,
{
}

/// A profile that the registry binds is not bound again: nothing is posted
/// for it.
pub proof fn law_bound_profiles_are_not_bound_again(
    dir: Seq<char>,
    body: Seq<char>,
    profile: Seq<char>,
    subject: Seq<char>,
    from: Seq<char>,
    rest: Seq<Seq<char>>,
    reply: HttpText,
)
    requires
        seed::profiles(json::parsed_or_null(reply.body@)).contains(profile),
    ensures
        bound_turn(dir, body, profile, subject, from, rest, Some(reply)).after == onward(
            dir,
            Drawer::Bindings,
            rest,
        ).after,
{
}

/// No step of the turn removes anything.
pub open spec fn keeps_all(turn: TurnView) -> bool {
    forall|k: int| 0 <= k < turn.steps.len() ==> !plan::removes(#[trigger] turn.steps[k])
}

#[verifier::spinoff_prover]
#[verifier::rlimit(40)]
proof fn lemma_replies_keep_all(
    dir: Seq<char>,
    family: Seq<char>,
    awaiting: AwaitingView,
    reply: Option<HttpText>,
)
    ensures
        keeps_all(reply_turn(dir, family, awaiting, reply)),
{
    match awaiting {
        AwaitingView::Health(i) => {
            assert(keeps_all(health_turn(family, i, reply)));
        },
        AwaitingView::Appended { now, i } => {
            assert(keeps_all(append(now, i + 1)));
        },
        AwaitingView::Registered { drawer, item, rest } => {
            assert(keeps_all(onward(dir, drawer, rest)));
        },
        AwaitingView::Bound { body, profile, subject, from, rest } => {
            assert(keeps_all(onward(dir, Drawer::Bindings, rest)));
        },
        AwaitingView::Binding { profile, subject, from, rest } => {
            assert(keeps_all(onward(dir, Drawer::Bindings, rest)));
        },
        _ => {},
    }
}

/// The walkthrough removes nothing, whatever it is answered.
#[verifier::spinoff_prover]
#[verifier::rlimit(40)]
pub proof fn law_the_walkthrough_removes_nothing(
    dir: Seq<char>,
    family: Seq<char>,
    awaiting: AwaitingView,
    reply: Option<HttpText>,
    found: bool,
    drawer: Drawer,
    names: Seq<Seq<char>>,
    document: Seq<char>,
    reading: Seq<char>,
    code: Option<u8>,
    stdout: Seq<u8>,
)
    ensures
        keeps_all(start(dir)),
        keeps_all(reply_turn(dir, family, awaiting, reply)),
        keeps_all(tool_turn(family, found)),
        keeps_all(drawer_turn(dir, drawer, names)),
        keeps_all(document_turn(drawer, names, document)),
        keeps_all(clock_turn(reading)),
        keeps_all(verdict_turn(dir, document, reading, code, stdout)),
        keeps_all(artifacts_turn(names)),
{
    lemma_replies_keep_all(dir, family, awaiting, reply);
    let listed = order::sorted(names.filter(seed::is_artifact()));
    assert(artifacts_turn(names).steps.len() == listed.len() + 1);
    assert forall|k: int| 0 <= k < listed.len() implies !plan::removes(
        #[trigger] artifacts_turn(names).steps[k],
    ) by {
        assert(artifacts_turn(names).steps[k] == StepView::Say("   demo/"@ + listed[k]));
    }
}

// ---------------------------------------------------------------------------
// What the walkthrough is about.
// ---------------------------------------------------------------------------

/// The services are asked where they listen: the ports are those of the rows
/// of the service table, by their names, and so are those whose health is
/// asked for.
pub proof fn law_services_are_asked_where_they_listen(
    pilot: Pilot,
    tsa: Seq<char>,
    j: int,
    i: nat,
)
    requires
        0 <= j < services::service_table(pilot, tsa).len(),
        i < 5,
    ensures
        ({
            let row = services::service_table(pilot, tsa)[j];
            &&& row.name == "registry"@ ==> row.port == seed::REGISTRY
            &&& row.name == "issuer"@ ==> row.port == seed::ISSUER
            &&& row.name == "projector"@ ==> row.port == seed::PROJECTOR
            &&& row.name == "gateway"@ ==> row.port == seed::GATEWAY
            &&& row.name == "archive"@ ==> row.port == seed::ARCHIVE
            &&& row.name == needed(i).0 ==> row.port == needed(i).1
        }),
        exists|k: int|
            0 <= k < services::service_table(pilot, tsa).len() && (
            #[trigger] services::service_table(pilot, tsa)[k]).name == needed(i).0,
{
    services::lemma_names(pilot, tsa);
    let t = services::service_table(pilot, tsa);
    assert(t[0].name == "registry"@);
    assert(t[3].name == "issuer"@);
    assert(t[4].name == "projector"@);
    assert(t[5].name == "gateway"@);
    assert(t[6].name == "archive"@);
}

/// Whatever is asked of a passport is asked of the one that was created: its
/// log, its events, its view, its pack, the views of it through the lenses, its
/// render and its snapshot.
pub proof fn law_calls_are_for_the_created_passport(
    dir: Seq<char>,
    id: Seq<char>,
    reading: Seq<char>,
    now: Seq<char>,
    i: nat,
    r: HttpText,
    jp: bool,
    head: Seq<char>,
    stdout: Seq<u8>,
)
    requires
        json::field(seed::creation(), "passport_id"@) == JsonView::Text(id),
    ensures
        ({
            let named = seed::percent(vstd::utf8::encode_utf8(id));
            let place = "/passports/"@ + named;
            &&& vstd::utf8::decode_utf8(seed::decoded(named)) == id
            &&& issuing().after->Call_0 == (CallView {
                port: seed::ISSUER,
                path: "/passports"@,
                body: Some(json::compact_text(seed::creation())),
            })
            &&& clock_turn(reading).after->Call_0 == (CallView {
                port: seed::ISSUER,
                path: place,
                body: None,
            })
            &&& i < 5 ==> append(now, i).after->Call_0 == (CallView {
                port: seed::ISSUER,
                path: place + "/events"@,
                body: Some(json::compact_text(seed::event_doc(seed::event(i as int, now)))),
            })
            &&& i >= 5 ==> append(now, i).after == AfterView::Call(
                CallView { port: seed::ISSUER, path: place, body: None },
                AwaitingView::Passport,
            )
            &&& passport_turn(dir, Some(r)).after->Call_0 == (CallView {
                port: seed::ISSUER,
                path: place + "/pack"@,
                body: Some("{}"@),
            })
            &&& lens_path(jp) == "/view?passport="@ + named + "&profile="@ + seed::percent(
                vstd::utf8::encode_utf8(
                    if jp {
                        "urn:unidpp:profile:pilot-jp-lens"@
                    } else {
                        "urn:unidpp:profile:pilot-eu-lens"@
                    },
                ),
            ) + "&actor=importer&at="@ + "2028-06-01T00:00:00Z"@
            &&& lens_turn(dir, true, Some(r)).after->Call_0 == (CallView {
                port: seed::GATEWAY,
                path: "/untp/product/"@ + named,
                body: None,
            })
            &&& printed(text::lossy(stdout)) is Object ==> {
                let posted = verdict_turn(dir, r.body@, head, Some(0), stdout).after->Call_0;
                let doc = seed::snapshot(r.body@, head);
                &&& posted == (CallView {
                    port: seed::ARCHIVE,
                    path: "/snapshots"@,
                    body: Some(json::compact_text(doc)),
                })
                &&& json::field(doc, "passport_id"@) == JsonView::Text(id)
            }
        }),
{
    seed::law_a_snapshot_is_of_the_created_passport(r.body@, head);
    seed::law_encoding_can_be_decoded(id);
    assert(id == seed::DEMO_URN@);
}

/// What is notarized is what was read: from the passport's view, whatever pack
/// and keyring follow, a pass of the verifier leads to a snapshot with the
/// checksum of that very view and with the head of the log that it names.
pub proof fn law_what_is_read_is_notarized(
    dir: Seq<char>,
    family: Seq<char>,
    view: HttpText,
    pack: HttpText,
    keyring: HttpText,
    stdout: Seq<u8>,
)
    requires
        pack.status == 201,
        printed(text::lossy(stdout)) is Object,
    ensures
        ({
            let first = reply_turn(dir, family, AwaitingView::Passport, Some(view));
            let second = reply_turn(dir, family, first.after->Call_1, Some(pack));
            let third = reply_turn(dir, family, second.after->Call_1, Some(keyring));
            let run = third.after;
            let last = verdict_turn(dir, run->view, run->log_head, Some(0), stdout);
            let posted = last.after->Call_0.body->0;
            let head = json::text_at(json::parsed_or_null(view.body@), seq!["log_head"@]);
            &&& first.after is Call
            &&& second.after is Call
            &&& run is RunTool
            &&& last.after is Call
            &&& last.after->Call_0.port == seed::ARCHIVE
            &&& last.after->Call_0.path == "/snapshots"@
            &&& last.after->Call_1 == AwaitingView::Snapshot
            &&& exists|doc: JsonView|
                {
                    &&& posted == #[trigger] json::compact_text(doc)
                    &&& json::field(doc, "state_hash"@) == JsonView::Text(
                        digest::checksum(vstd::utf8::encode_utf8(view.body@)),
                    )
                    &&& json::field(doc, "log_head"@) == JsonView::Text(head)
                }
        }),
{
    let head = json::text_at(json::parsed_or_null(view.body@), seq!["log_head"@]);
    seed::law_a_snapshot_is_of_the_created_passport(view.body@, head);
    let doc = seed::snapshot(view.body@, head);
    assert(json::field(doc, "log_head"@) == JsonView::Text(head));
    let first = reply_turn(dir, family, AwaitingView::Passport, Some(view));
    assert(first.after->Call_1 == AwaitingView::Packed { view: view.body@, log_head: head });
    let last = verdict_turn(dir, view.body@, head, Some(0), stdout);
    assert(last.after->Call_0.body->0 == json::compact_text(doc));
}

/// A step of the turn writes the text at the path.
pub open spec fn writes(turn: TurnView, path: Seq<char>, text: Seq<char>) -> bool {
    exists|k: int|
        0 <= k < turn.steps.len() && (#[trigger] turn.steps[k] matches StepView::Write {
            path: p,
            text: t,
            ..
        } && p == path && t == text)
}

/// What is verified is what was packed: the verifier is run on the file to
/// which the pack was written, against the anchor that the keyring holds.
pub proof fn law_the_pack_is_what_is_verified(
    dir: Seq<char>,
    family: Seq<char>,
    view: Seq<char>,
    head: Seq<char>,
    pack: HttpText,
    keyring: HttpText,
)
    requires
        pack.status == 201,
    ensures
        ({
            let first = reply_turn(
                dir,
                family,
                AwaitingView::Packed { view, log_head: head },
                Some(pack),
            );
            let second = reply_turn(dir, family, first.after->Call_1, Some(keyring));
            let run = second.after;
            &&& first.after is Call
            &&& first.after->Call_0 == (CallView {
                port: seed::ISSUER,
                path: "/keyring"@,
                body: None,
            })
            &&& run is RunTool
            &&& run->args.len() == 7
            &&& run->args[0] == "verify"@
            &&& writes(
                second,
                run->args[1],
                json::text_at(json::parsed_or_null(pack.body@), seq!["pack"@]),
            )
            &&& run->args[2] == "--anchor"@
            &&& run->args[3] == json::text_at(
                json::parsed_or_null(keyring.body@),
                seq!["roles"@, "pack"@, "public"@],
            )
        }),
{
    let second = keyring_turn(dir, family, view, head, pack.body@, Some(keyring));
    assert(second.steps[1] is Write);
}

/// Only a pass leads on: without the exit code of a pass nothing is posted to
/// the archive, whatever the verifier printed.
pub proof fn law_only_a_pass_is_notarized(
    dir: Seq<char>,
    view: Seq<char>,
    head: Seq<char>,
    code: Option<u8>,
    stdout: Seq<u8>,
)
    ensures
        verdict_turn(dir, view, head, code, stdout).after is Call ==> code == Some(0u8),
        code != Some(0u8) ==> verdict_turn(dir, view, head, code, stdout).after is Die
            || verdict_turn(dir, view, head, code, stdout).after is Panic,
{
}

/// Every answer that the walkthrough accepts is kept as it came, each under a
/// name of its own; the view of the passport lies where the projector looks for
/// it too.
pub proof fn law_answers_are_kept(
    dir: Seq<char>,
    family: Seq<char>,
    awaiting: AwaitingView,
    r: HttpText,
)
    ensures
        ({
            let turn = reply_turn(dir, family, awaiting, Some(r));
            let demo = path::below(dir, "demo"@);
            let body = r.body@;
            turn.after is Die || turn.after is Panic || {
                &&& awaiting is Seeded ==> writes(
                    turn,
                    path::below(demo, "00-discovery-seed.json"@),
                    body,
                )
                &&& awaiting is Issued && r.status == 201 ==> writes(
                    turn,
                    path::below(demo, "01-passport-created.json"@),
                    body,
                )
                &&& awaiting is Passport ==> writes(
                    turn,
                    path::below(demo, "02-passport-view.json"@),
                    body,
                ) && writes(turn, path::below(dir, "passports/pilot-e8.json"@), body)
                &&& awaiting is Packed ==> writes(
                    turn,
                    path::below(demo, "03-tier-a-pack.json"@),
                    body,
                )
                &&& awaiting is Keyring ==> writes(
                    turn,
                    path::below(demo, "04-issuer-keyring.json"@),
                    body,
                )
                &&& awaiting is Snapshot ==> writes(
                    turn,
                    path::below(demo, "06-archive-snapshot.json"@),
                    body,
                )
                &&& awaiting == AwaitingView::Lens { jp: false } ==> writes(
                    turn,
                    path::below(demo, "07-projector-view-eu.json"@),
                    body,
                )
                &&& awaiting == AwaitingView::Lens { jp: true } ==> writes(
                    turn,
                    path::below(demo, "07-projector-view-jp.json"@),
                    body,
                )
                &&& awaiting is Untp ==> writes(
                    turn,
                    path::below(demo, "08-gateway-untp.json"@),
                    body,
                )
                &&& awaiting is Render ==> writes(
                    turn,
                    path::below(demo, "09-gateway-en18222.json"@),
                    body,
                )
                &&& awaiting == AwaitingView::AsOf { later: false } ==> writes(
                    turn,
                    path::below(demo, "10-applicability-2027-06-01.json"@),
                    body,
                )
                &&& awaiting == AwaitingView::AsOf { later: true } ==> writes(
                    turn,
                    path::below(demo, "11-applicability-2028-06-01.json"@),
                    body,
                )
            }
        }),
{
    let turn = reply_turn(dir, family, awaiting, Some(r));
    reveal_strlit("07-projector-view-");
    reveal_strlit("eu");
    reveal_strlit("jp");
    reveal_strlit(".json");
    reveal_strlit("07-projector-view-eu.json");
    reveal_strlit("07-projector-view-jp.json");
    assert("07-projector-view-"@ + "eu"@ + ".json"@ =~= "07-projector-view-eu.json"@);
    assert("07-projector-view-"@ + "jp"@ + ".json"@ =~= "07-projector-view-jp.json"@);
    if !(turn.after is Die || turn.after is Panic) && !(awaiting is Health || awaiting is Units
        || awaiting is Registered || awaiting is Bound || awaiting is Binding || awaiting is Log
        || awaiting is Appended) && !(awaiting is Issued && r.status == 409) {
        assert(turn.steps[0] is Write);
        if awaiting is Passport {
            assert(turn.steps[1] is Write);
        }
    }
}

/// The verdict of the verifier is kept whatever it is, with the exit code in
/// it, unless it can hold none.
pub proof fn law_verdicts_are_kept(
    dir: Seq<char>,
    view: Seq<char>,
    head: Seq<char>,
    code: u8,
    stdout: Seq<u8>,
)
    requires
        printed(text::lossy(stdout)) is Object,
    ensures
        exists|doc: JsonView|
            {
                &&& writes(
                    verdict_turn(dir, view, head, Some(code), stdout),
                    path::below(path::below(dir, "demo"@), "05-cli-verify.json"@),
                    #[trigger] json::pretty_text(doc),
                )
                &&& json::field(doc, "exit_code"@) == json::number(code as nat)
                &&& forall|key: Seq<char>|
                    key != "exit_code"@ ==> #[trigger] json::field(doc, key) == json::field(
                        printed(text::lossy(stdout)),
                        key,
                    )
            },
{
    let out = printed(text::lossy(stdout));
    let doc = with_code(out, code as nat);
    let turn = verdict_turn(dir, view, head, Some(code), stdout);
    assert(turn.steps[0] == artifact(dir, "05-cli-verify.json"@, json::pretty_text(doc)));
    assert(turn.steps[0] is Write);
    assert(json::field(doc, "exit_code"@) == json::number(code as nat));
}

/// What is read in a drawer is what is posted from it: an item or a lens to the
/// registry as it stands, and a binding too where the registry has none for its
/// profile; and the items come before the lenses, the lenses before the
/// bindings, and all of them before the passport.
pub proof fn law_documents_are_posted_as_they_stand(
    dir: Seq<char>,
    rest: Seq<Seq<char>>,
    body: Seq<char>,
    none: HttpText,
)
    requires
        seed::profiles(json::parsed_or_null(none.body@)).len() == 0,
    ensures
        document_turn(Drawer::Items, rest, body).after->Call_0 == (CallView {
            port: seed::REGISTRY,
            path: "/items"@,
            body: Some(body),
        }),
        document_turn(Drawer::Lenses, rest, body).after->Call_0 == (CallView {
            port: seed::REGISTRY,
            path: "/profiles"@,
            body: Some(body),
        }),
        reply_turn(
            dir,
            dir,
            document_turn(Drawer::Bindings, rest, body).after->Call_1,
            Some(none),
        ).after->Call_0 == (CallView {
            port: seed::REGISTRY,
            path: "/applicability"@,
            body: Some(body),
        }),
        opened(dir, Drawer::Items).after == (AfterView::ListDrawer {
            dir: path::below(dir, "seed/items"@),
            drawer: Drawer::Items,
        }),
        onward(dir, Drawer::Items, Seq::empty()).after == (AfterView::ListDrawer {
            dir: path::below(dir, "seed/lens"@),
            drawer: Drawer::Lenses,
        }),
        onward(dir, Drawer::Lenses, Seq::empty()).after == (AfterView::ListDrawer {
            dir: path::below(dir, "seed/bindings"@),
            drawer: Drawer::Bindings,
        }),
        onward(dir, Drawer::Bindings, Seq::empty()).after->Call_1 == AwaitingView::Issued,
{
}

} // verus!
