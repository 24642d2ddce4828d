//! The bundle's own runner: the manifest at the bundle root, every program
//! from `./bin`, pid files and logs under `./run`, the environment rendered
//! from the manifest, and the console carrying its own manifest path.

use vstd::prelude::*;
use vstd::string::*;

use crate::archive::ToolOutput;
use crate::environment;
use crate::environment::{environment_of, push_pair};
use crate::path;
use crate::path::join;
use crate::text;
use crate::text::{cat2, cat3, cat4, cat5, chars_of, entries_of, same_text, text_from, text_of, trimmed};

verus! {

/// What the runner is asked for.
pub enum RunAction {
    Start,
    Stop,
    Status,
}

/// What the runner's argument asks for; without one it starts.
pub fn run_action(arg: Option<&str>) -> (r: Result<RunAction, String>)
    ensures
        ({
            let a = match arg {
                Some(t) => t@,
                None => "start"@,
            };
            match r {
                Ok(RunAction::Start) => a == "start"@,
                Ok(RunAction::Stop) => a == "stop"@,
                Ok(RunAction::Status) => a == "status"@,
                Err(m) => a != "start"@ && a != "stop"@ && a != "status"@ && m@
                    == "usage: unidpp-run [start|stop|status]"@,
            }
        }),
{
    let a: &str = match arg {
        Some(t) => t,
        None => "start",
    };
    if same_text(a, "start") {
        Ok(RunAction::Start)
    } else if same_text(a, "stop") {
        Ok(RunAction::Stop)
    } else if same_text(a, "status") {
        Ok(RunAction::Status)
    } else {
        Err("usage: unidpp-run [start|stop|status]".to_string())
    }
}

/// The services that the bundle runs.
pub fn bundle_services(out: &ToolOutput) -> (r: Result<Vec<String>, String>)
    ensures
        match r {
            Ok(names) => out.success && text::views(names@) == text::entries(
                text::lossy(out.stdout@),
            ),
            Err(m) => !out.success && m@ == "unidpp-config services rejected the manifest"@,
        },
{
    if out.success {
        Ok(entries_of(text_from(out.stdout.as_slice()).as_str()))
    } else {
        Err("unidpp-config services rejected the manifest".to_string())
    }
}

/// A pid file's text without white space at either end.
pub fn pid_text(text: &str) -> (r: String)
    ensures
        r@ == text::trim(text@),
{
    let chars = chars_of(text);
    text_of(trimmed(chars.as_slice()))
}

/// The process that a service may run as: what its pid file names, if it
/// names anything. A missing pid file counts as an empty one.
pub fn process_to_probe(pidfile: Option<&str>) -> (r: Option<String>)
    ensures
        ({
            let named = named_process(pidfile);
            match r {
                Some(pid) => named.len() > 0 && pid@ == named,
                None => named.len() == 0,
            }
        }),
{
    match pidfile {
        Some(t) => {
            let pid = pid_text(t);
            if pid.as_str().is_empty() {
                None
            } else {
                Some(pid)
            }
        },
        None => {
            proof {
                text::lemma_lead(Seq::<char>::empty(), text::Class::Space);
                text::lemma_trail(Seq::<char>::empty(), text::Class::Space);
            }
            None
        },
    }
}

/// What is said of a service that was to be stopped.
pub fn stop_line(name: &str, stopped: bool) -> (r: String)
    ensures
        r@ == if stopped {
            "stopped "@ + name@
        } else {
            name@ + " not running"@
        },
{
    if stopped {
        cat2("stopped ", name)
    } else {
        cat2(name, " not running")
    }
}

/// What is next for a service, as mathematics.
pub enum NextView {
    Say(Seq<char>),
    Die(Seq<char>),
    Kill(Seq<char>),
    Launch,
}

/// What is next for a service.
pub enum Next {
    /// Say this; nothing else is to be done.
    Say(String),
    /// End, and say why.
    Die(String),
    /// Stop this process.
    Kill(String),
    /// Launch the service.
    Launch,
}

impl View for Next {
    type V = NextView;

    open spec fn view(&self) -> NextView {
        match self {
            Next::Say(line) => NextView::Say(line@),
            Next::Die(m) => NextView::Die(m@),
            Next::Kill(pid) => NextView::Kill(pid@),
            Next::Launch => NextView::Launch,
        }
    }
}

/// The process that a pid file names, nothing where there is no pid file.
pub open spec fn named_process(pidfile: Option<&str>) -> Seq<char> {
    text::trim(
        match pidfile {
            Some(t) => t@,
            None => Seq::empty(),
        },
    )
}

/// What is next for a service, by the action, its pid file, whether the
/// process that it names is alive, and whether its program is there. A
/// service that runs is not started again.
pub open spec fn next_for(
    action: RunAction,
    name: Seq<char>,
    pidfile: Option<&str>,
    alive: bool,
    binary: Seq<char>,
    binary_is_file: bool,
) -> NextView {
    let pid = named_process(pidfile);
    let running = pid.len() > 0 && alive;
    match action {
        RunAction::Stop => if pidfile is Some {
            NextView::Kill(pid)
        } else {
            NextView::Say(name + " not running"@)
        },
        RunAction::Status => NextView::Say(
            if running {
                "  "@ + name + ": running (pid "@ + pid + ")"@
            } else {
                "  "@ + name + ": down"@
            },
        ),
        RunAction::Start => if running {
            NextView::Say("  "@ + name + ": already running"@)
        } else if !binary_is_file {
            NextView::Die("unidpp-run: no binary for "@ + name + " at "@ + binary)
        } else {
            NextView::Launch
        },
    }
}

/// What is next for a service.
pub fn act(
    action: &RunAction,
    name: &str,
    pidfile: Option<&str>,
    alive: bool,
    binary: &str,
    binary_is_file: bool,
) -> (r: Next)
    ensures
        r@ == next_for(*action, name@, pidfile, alive, binary@, binary_is_file),
{
    let probed = process_to_probe(pidfile);
    let running: Option<String> = if alive {
        probed
    } else {
        None
    };
    match action {
        RunAction::Stop => match pidfile {
            Some(t) => Next::Kill(pid_text(t)),
            None => Next::Say(cat2(name, " not running")),
        },
        RunAction::Status => match running {
            Some(pid) => Next::Say(
                cat5("  ", name, ": running (pid ", pid.as_str(), ")"),
            ),
            None => Next::Say(cat3("  ", name, ": down")),
        },
        RunAction::Start => if running.is_some() {
            Next::Say(cat3("  ", name, ": already running"))
        } else if !binary_is_file {
            Next::Die(cat4("unidpp-run: no binary for ", name, " at ", binary))
        } else {
            Next::Launch
        },
    }
}

/// What a service is launched with: its rendered environment, and for the
/// console its manifest.
pub fn launch_environment(name: &str, rendered: &ToolOutput, manifest: &str) -> (r: Result<
    Vec<(String, String)>,
    String,
>)
    ensures
        match r {
            Ok(list) => rendered.success && environment::pair_views(list@)
                == environment::environment(text::lossy(rendered.stdout@)) + if name@
                == "console"@ {
                seq![("UNIDPP_CONSOLE_MANIFEST"@, manifest@)]
            } else {
                seq![]
            },
            Err(m) => !rendered.success && m@ == "render-env for "@ + name@
                + " rejected the manifest"@,
        },
{
    if !rendered.success {
        return Err(cat3("render-env for ", name, " rejected the manifest"));
    }
    let mut list = environment_of(text_from(rendered.stdout.as_slice()).as_str());
    let ghost base = environment::pair_views(list@);
    if same_text(name, "console") {
        push_pair(&mut list, "UNIDPP_CONSOLE_MANIFEST", manifest);
        assert(environment::pair_views(list@) =~= base + seq![
            ("UNIDPP_CONSOLE_MANIFEST"@, manifest@),
        ]);
    } else {
        assert(environment::pair_views(list@) =~= base + seq![]);
    }
    Ok(list)
}

/// What is said of a service that was started.
pub fn started_line(name: &str, pid: &str) -> (r: String)
    ensures
        r@ == "  "@ + name@ + ": started (pid "@ + pid@ + ")"@,
{
    cat5("  ", name, ": started (pid ", pid, ")")
}

/// The pid file of a service.
pub fn pid_path(run_dir: &str, name: &str) -> (r: String)
    ensures
        r@ == path::below(run_dir@, name@ + ".pid"@),
{
    join(run_dir, cat2(name, ".pid").as_str())
}

/// The log of a service.
pub fn log_path(run_dir: &str, name: &str) -> (r: String)
    ensures
        r@ == path::below(run_dir@, name@ + ".log"@),
{
    join(run_dir, cat2(name, ".log").as_str())
}

/// Whether a file can be run: any execute bit of its mode is set. A file that
/// is not there has no mode.
pub fn is_executable(mode: Option<u32>) -> (r: bool)
    ensures
        r == (mode matches Some(m) && m & 0o111 != 0),
{
    match mode {
        Some(m) => m & 0o111 != 0,
        None => false,
    }
}

} // verus!
