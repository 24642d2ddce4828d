//! The schedule and the retention. The cron lines name the program's own
//! path, and a marker by which they are found again. The watch line drives
//! the orchestrator's idempotent `up`. Prune is report-only by default:
//! deletion is an explicit act.

use vstd::prelude::*;
use vstd::slice::*;
use vstd::string::*;

use crate::backup;
use crate::backup::sidecar_of;
use crate::decimal;
use crate::decimal::{decimal_of, parsed_number};
use crate::path;
use crate::path::join;
use crate::plan;
use crate::plan::{Plan, Step, StepView};
use crate::text;
use crate::text::{
    begins, cat2, cat3, cat4, cat5, chars_of, contains_text, every, lines_of, same_text, Class,
};

verus! {

// ---------------------------------------------------------------------------
// The cron lines.
// ---------------------------------------------------------------------------

/// What marks the nightly backup's line.
pub open spec fn schedule_marker() -> Seq<char> {
    "unidpp-ops: nightly backup"@
}

/// What marks the watch's line.
pub open spec fn watch_marker() -> Seq<char> {
    "unidpp-ops: always-on watch"@
}

/// The nightly backup line.
pub open spec fn nightly(root: Seq<char>, exe: Seq<char>) -> Seq<char> {
    "17 3 * * * cd "@ + root + " && "@ + exe + " backup >> backups/schedule.log 2>&1 # "@
        + schedule_marker()
}

/// The watch line.
pub open spec fn watch(root: Seq<char>) -> Seq<char> {
    "*/10 * * * * cd "@ + root + " && "@ + root
        + "/ops/target/release/unidpp-stack up >/dev/null 2>&1 # "@ + watch_marker()
}

/// The nightly backup line: the program's own absolute path, the deployment
/// root, and the marker the installs key on.
pub fn schedule_line(root: &str, exe: Option<&str>) -> (r: String)
    ensures
        r@ == nightly(
            root@,
            match exe {
                Some(e) => e@,
                None => "./unidpp-ops"@,
            },
        ),
{
    let program: &str = match exe {
        Some(e) => e,
        None => "./unidpp-ops",
    };
    let head = cat5(
        "17 3 * * * cd ",
        root,
        " && ",
        program,
        " backup >> backups/schedule.log 2>&1 # ",
    );
    cat2(head.as_str(), "unidpp-ops: nightly backup")
}

/// The watch drives the orchestrator: idempotent adopt-or-start every ten
/// minutes.
pub fn watch_line(root: &str) -> (r: String)
    ensures
        r@ == watch(root@),
{
    let head = cat5(
        "*/10 * * * * cd ",
        root,
        " && ",
        root,
        "/ops/target/release/unidpp-stack up >/dev/null 2>&1 # ",
    );
    cat2(head.as_str(), "unidpp-ops: always-on watch")
}

// ---------------------------------------------------------------------------
// The table.
// ---------------------------------------------------------------------------

/// The table holds the line, and the line bears the marker.
pub open spec fn is_installed(table: Seq<char>, line: Seq<char>, marker: Seq<char>) -> bool {
    text::lines(table).contains(line) && text::holds_text(line, marker)
}

/// A line that does not bear the marker.
pub open spec fn unmarked(marker: Seq<char>) -> spec_fn(Seq<char>) -> bool {
    |line: Seq<char>| !text::holds_text(line, marker)
}

/// The lines, each with a line feed after it.
pub open spec fn ended(lines: Seq<Seq<char>>) -> Seq<char>
    decreases lines.len(),
{
    if lines.len() == 0 {
        Seq::empty()
    } else {
        ended(lines.drop_last()) + lines.last() + "\n"@
    }
}

/// The table with the line in place of every line that bears the marker.
pub open spec fn merged(table: Seq<char>, line: Seq<char>, marker: Seq<char>) -> Seq<char> {
    ended(text::lines(table).filter(unmarked(marker)).push(line))
}

/// The new table, or nothing where the line is installed already: a stale
/// marked line is replaced, not trusted.
pub fn install(table: &str, line: &str, marker: &str) -> (r: Option<String>)
    ensures
        match r {
            None => is_installed(table@, line@, marker@),
            Some(new) => !is_installed(table@, line@, marker@) && new@ == merged(
                table@,
                line@,
                marker@,
            ),
        },
{
    let ghost all = text::lines(table@);
    let lines = lines_of(chars_of(table).as_slice());
    let mark = chars_of(marker);
    let own = contains_text(chars_of(line).as_slice(), mark.as_slice());
    let mut new = String::new();
    let mut i: usize = 0;
    proof {
        reveal(Seq::filter);
        assert(all.take(0).filter(unmarked(marker@)) =~= Seq::<Seq<char>>::empty());
    }
    while i < lines.len()
        invariant
            i <= lines.len(),
            text::views(lines@) == all,
            all == text::lines(table@),
            mark@ == marker@,
            own == text::holds_text(line@, marker@),
            own ==> forall|j: int| 0 <= j < i ==> #[trigger] all[j] != line@,
            new@ == ended(all.take(i as int).filter(unmarked(marker@))),
        decreases lines.len() - i,
    {
        assert(all[i as int] == lines@[i as int]@);
        if own && same_text(lines[i].as_str(), line) {
            assert(all.contains(line@));
            return None;
        }
        proof {
            reveal(Seq::filter);
            assert(all.take(i + 1).drop_last() =~= all.take(i as int));
            assert(all.take(i + 1).last() == lines@[i as int]@);
        }
        if !contains_text(chars_of(lines[i].as_str()).as_slice(), mark.as_slice()) {
            new.append(lines[i].as_str());
            new.append("\n");
            proof {
                let kept = all.take(i as int).filter(unmarked(marker@));
                let next = kept.push(lines@[i as int]@);
                assert(next.drop_last() =~= kept);
                assert(all.take(i + 1).filter(unmarked(marker@)) == next);
            }
        }
        i += 1;
    }
    assert(all.take(i as int) =~= all);
    new.append(line);
    new.append("\n");
    proof {
        let kept = all.filter(unmarked(marker@));
        assert(kept.push(line@).drop_last() =~= kept);
        if is_installed(table@, line@, marker@) {
            let j = choose|j: int| 0 <= j < all.len() && all[j] == line@;
            assert(all[j] != line@);
        }
    }
    Some(new)
}

proof fn lemma_ended_first(first: Seq<char>, rest: Seq<Seq<char>>)
    ensures
        ended(seq![first] + rest) == first + "\n"@ + ended(rest),
    decreases rest.len(),
{
    let all = seq![first] + rest;
    if rest.len() == 0 {
        assert(all.drop_last() =~= Seq::<Seq<char>>::empty());
        assert(ended(all.drop_last()) =~= Seq::<char>::empty());
        assert(ended(all) =~= first + "\n"@ + ended(rest));
    } else {
        assert(all.drop_last() =~= seq![first] + rest.drop_last());
        lemma_ended_first(first, rest.drop_last());
        assert(ended(all) =~= first + "\n"@ + ended(rest));
    }
}

/// The lines of ended lines are those lines.
proof fn lemma_lines_of_ended(lines: Seq<Seq<char>>)
    requires
        forall|i: int| 0 <= i < lines.len() ==> text::all_in(#[trigger] lines[i], Class::Except('\n')),
    ensures
        text::lines(ended(lines)) == lines.map_values(|l: Seq<char>| text::strip_return(l)),
    decreases lines.len(),
{
    let shown = lines.map_values(|l: Seq<char>| text::strip_return(l));
    if lines.len() == 0 {
        assert(text::lines(ended(lines)) =~= shown);
    } else {
        let rest = lines.skip(1);
        assert(lines =~= seq![lines[0]] + rest);
        assert forall|i: int| 0 <= i < rest.len() implies text::all_in(
            #[trigger] rest[i],
            Class::Except('\n'),
        ) by {
            assert(rest[i] == lines[i + 1]);
        }
        lemma_lines_of_ended(rest);
        lemma_ended_first(lines[0], rest);
        text::lemma_lines_first(lines[0], ended(rest));
        assert(shown =~= seq![text::strip_return(lines[0])] + rest.map_values(
            |l: Seq<char>| text::strip_return(l),
        ));
    }
}

/// A line of a text holds no line feed.
proof fn lemma_lines_are_lines(s: Seq<char>)
    ensures
        forall|i: int|
            0 <= i < text::lines(s).len() ==> text::all_in(
                #[trigger] text::lines(s)[i],
                Class::Except('\n'),
            ),
    decreases s.len(),
{
    if s.len() > 0 {
        text::lemma_by_line(s);
        let n = text::lead(s, Class::Except('\n'));
        text::lemma_stripped_is_a_line(s.take(n));
        if n < s.len() {
            let rest = text::lines(s.skip(n + 1));
            lemma_lines_are_lines(s.skip(n + 1));
            assert forall|i: int| 0 <= i < text::lines(s).len() implies text::all_in(
                #[trigger] text::lines(s)[i],
                Class::Except('\n'),
            ) by {
                if i > 0 {
                    assert(text::lines(s)[i] == rest[i - 1]);
                }
            }
        }
    }
}

proof fn lemma_stripped_holds(line: Seq<char>, marker: Seq<char>)
    ensures
        text::holds_text(text::strip_return(line), marker) ==> text::holds_text(line, marker),
{
    let x = text::strip_return(line);
    if text::holds_text(x, marker) {
        let i = choose|i: int| text::occurs_at(x, marker, i);
        assert(line.subrange(i, i + marker.len()) =~= x.subrange(i, i + marker.len()));
        assert(text::occurs_at(line, marker, i));
    }
}

/// Installing replaces only what bears the marker: every other line of the
/// table stays, in its order, before the new one (a carriage return at the
/// end of a line does not count).
pub proof fn law_install_keeps_other_lines(table: Seq<char>, line: Seq<char>, marker: Seq<char>)
    requires
        text::all_in(line, Class::Except('\n')),
    ensures
        text::lines(merged(table, line, marker)) == text::lines(table).filter(
            unmarked(marker),
        ).push(line).map_values(|l: Seq<char>| text::strip_return(l)),
{
    let old_lines = text::lines(table);
    let kept = old_lines.filter(unmarked(marker));
    let all = kept.push(line);
    lemma_lines_are_lines(table);
    text::lemma_filtered(old_lines, unmarked(marker));
    assert forall|i: int| 0 <= i < all.len() implies text::all_in(
        #[trigger] all[i],
        Class::Except('\n'),
    ) by {
        if i < kept.len() {
            assert(old_lines.contains(kept[i]));
            let j = choose|j: int| 0 <= j < old_lines.len() && old_lines[j] == kept[i];
            assert(text::all_in(old_lines[j], Class::Except('\n')));
        }
    }
    lemma_lines_of_ended(all);
}

/// Installing is idempotent: in the new table the line is installed, as its
/// last line, and no other line bears the marker.
pub proof fn law_install_is_idempotent(table: Seq<char>, line: Seq<char>, marker: Seq<char>)
    requires
        text::all_in(line, Class::Except('\n')),
        text::strip_return(line) == line,
        text::holds_text(line, marker),
    ensures
        is_installed(merged(table, line, marker), line, marker),
        ({
            let new = text::lines(merged(table, line, marker));
            &&& new.len() > 0
            &&& new.last() == line
            &&& forall|i: int|
                0 <= i < new.len() - 1 ==> !text::holds_text(#[trigger] new[i], marker)
        }),
{
    let kept = text::lines(table).filter(unmarked(marker));
    law_install_keeps_other_lines(table, line, marker);
    text::lemma_filtered(text::lines(table), unmarked(marker));
    let new = text::lines(merged(table, line, marker));
    assert(new.last() == line);
    assert(new[new.len() - 1] == line);
    assert forall|i: int| 0 <= i < new.len() - 1 implies !text::holds_text(
        #[trigger] new[i],
        marker,
    ) by {
        assert(unmarked(marker)(kept[i]));
        lemma_stripped_holds(kept[i], marker);
    }
}

/// The two cron lines can be installed so: each is one line and bears its
/// marker.
pub proof fn law_cron_lines_bear_their_markers(root: Seq<char>, exe: Seq<char>)
    requires
        text::all_in(root, Class::Except('\n')),
        text::all_in(exe, Class::Except('\n')),
    ensures
        text::all_in(nightly(root, exe), Class::Except('\n')),
        text::strip_return(nightly(root, exe)) == nightly(root, exe),
        text::holds_text(nightly(root, exe), schedule_marker()),
        text::all_in(watch(root), Class::Except('\n')),
        text::strip_return(watch(root)) == watch(root),
        text::holds_text(watch(root), watch_marker()),
{
    lemma_nightly_texts();
    lemma_watch_texts();
    lemma_line_parts(
        "17 3 * * * cd "@,
        root,
        exe,
        " backup >> backups/schedule.log 2>&1 # "@,
        schedule_marker(),
    );
    lemma_line_parts(
        "*/10 * * * * cd "@,
        root,
        root,
        "/ops/target/release/unidpp-stack up >/dev/null 2>&1 # "@,
        watch_marker(),
    );
}

/// A text within one line that can end it.
spec fn ends_a_line(s: Seq<char>) -> bool {
    text::all_in(s, Class::Except('\n')) && s.len() > 0 && s.last() != '\r'
}

proof fn lemma_nightly_texts()
    ensures
        ends_a_line("17 3 * * * cd "@),
        ends_a_line(" backup >> backups/schedule.log 2>&1 # "@),
        ends_a_line(schedule_marker()),
{
    assert(ends_a_line("17 3 * * * cd "@)) by {
        reveal_strlit("17 3 * * * cd ");
    }
    assert(ends_a_line(" backup >> backups/schedule.log 2>&1 # "@)) by {
        reveal_strlit(" backup >> backups/schedule.log 2>&1 # ");
    }
    assert(ends_a_line(schedule_marker())) by {
        reveal_strlit("unidpp-ops: nightly backup");
    }
}

proof fn lemma_watch_texts()
    ensures
        ends_a_line("*/10 * * * * cd "@),
        ends_a_line("/ops/target/release/unidpp-stack up >/dev/null 2>&1 # "@),
        ends_a_line(watch_marker()),
{
    assert(ends_a_line("*/10 * * * * cd "@)) by {
        reveal_strlit("*/10 * * * * cd ");
    }
    assert(ends_a_line("/ops/target/release/unidpp-stack up >/dev/null 2>&1 # "@)) by {
        reveal_strlit("/ops/target/release/unidpp-stack up >/dev/null 2>&1 # ");
    }
    assert(ends_a_line(watch_marker())) by {
        reveal_strlit("unidpp-ops: always-on watch");
    }
}

proof fn lemma_line_parts(
    head: Seq<char>,
    a: Seq<char>,
    b: Seq<char>,
    tail: Seq<char>,
    marker: Seq<char>,
)
    requires
        ends_a_line(head),
        ends_a_line(tail),
        ends_a_line(marker),
        text::all_in(a, Class::Except('\n')),
        text::all_in(b, Class::Except('\n')),
    ensures
        text::holds_text(head + a + " && "@ + b + tail + marker, marker),
        ends_a_line(head + a + " && "@ + b + tail + marker),
{
    reveal_strlit(" && ");
    let front = head + a + " && "@ + b + tail;
    let line = front + marker;
    assert(line.subrange(front.len() as int, (front.len() + marker.len()) as int) =~= marker);
    assert(text::occurs_at(line, marker, front.len() as int));
    assert forall|i: int| 0 <= i < line.len() implies Class::Except('\n').has(
        #[trigger] line[i],
    ) by {
        let n1 = head.len();
        let n2 = n1 + a.len();
        let n3 = n2 + 4;
        let n4 = n3 + b.len();
        let n5 = n4 + tail.len();
        if i < n1 {
            assert(line[i] == head[i]);
        } else if i < n2 {
            assert(line[i] == a[i - n1]);
        } else if i < n3 {
            assert(line[i] == " && "@[i - n2]);
        } else if i < n4 {
            assert(line[i] == b[i - n3]);
        } else if i < n5 {
            assert(line[i] == tail[i - n4]);
        } else {
            assert(line[i] == marker[i - n5]);
        }
    }
}

// ---------------------------------------------------------------------------
// `schedule [--install|--watch --install|--status]`.
// ---------------------------------------------------------------------------

/// What `schedule` is asked for.
pub enum Schedule {
    /// Install the watch's line.
    Watch,
    /// Report what is installed.
    Status,
    /// Print the nightly backup's line.
    Show,
    /// Install the nightly backup's line.
    Install,
}

/// The argument at a position, nothing where there is none.
pub open spec fn arg(args: Seq<Seq<char>>, i: int) -> Seq<char> {
    if i < args.len() {
        args[i]
    } else {
        ""@
    }
}

/// The argument at a position, nothing where there is none.
pub fn arg_at(args: &Vec<String>, i: usize) -> (r: &str)
    ensures
        r@ == arg(text::views(args@), i as int),
{
    if i < args.len() {
        args[i].as_str()
    } else {
        ""
    }
}

/// What the arguments of `schedule` ask for.
pub fn schedule_args(args: &Vec<String>) -> (r: Result<Schedule, String>)
    ensures
        ({
            let first = arg(text::views(args@), 0);
            let second = arg(text::views(args@), 1);
            match r {
                Ok(Schedule::Watch) => first == "--watch"@ && second == "--install"@,
                Ok(Schedule::Status) => first == "--status"@,
                Ok(Schedule::Show) => first == ""@,
                Ok(Schedule::Install) => first == "--install"@,
                Err(m) => if first == "--watch"@ {
                    second != "--install"@ && m@ == "usage: schedule --watch --install"@
                } else {
                    first != "--status"@ && first != ""@ && first != "--install"@ && m@
                        == "usage: schedule [--install|--status]"@
                },
            }
        }),
{
    let first = arg_at(args, 0);
    let second = arg_at(args, 1);
    if same_text(first, "--watch") {
        if same_text(second, "--install") {
            Ok(Schedule::Watch)
        } else {
            Err("usage: schedule --watch --install".to_string())
        }
    } else if same_text(first, "--status") {
        Ok(Schedule::Status)
    } else if same_text(first, "") {
        Ok(Schedule::Show)
    } else if same_text(first, "--install") {
        Ok(Schedule::Install)
    } else {
        Err("usage: schedule [--install|--status]".to_string())
    }
}

/// What `schedule` comes to: a new table to install first, and lines to
/// print.
pub struct Scheduled {
    pub table: Option<String>,
    pub plan: Plan,
}

/// The lines that report what is installed.
pub open spec fn status_report(table: Seq<char>) -> Seq<StepView> {
    seq![
        StepView::Say(
            "backup: "@ + if text::holds_text(table, schedule_marker()) {
                "installed (nightly at 03:17)"@
            } else {
                "not installed — pass --install"@
            },
        ),
        StepView::Say(
            "watch:  "@ + if text::holds_text(table, watch_marker()) {
                "installed (the */10 idempotent repair)"@
            } else {
                "not installed — pass --watch --install"@
            },
        ),
    ]
}

/// What `schedule` does, given the table that is installed.
pub fn cmd_schedule(action: &Schedule, root: &str, exe: Option<&str>, table: &str) -> (r: Scheduled)
    ensures
        ({
            let program = match exe {
                Some(e) => e@,
                None => "./unidpp-ops"@,
            };
            let line = nightly(root@, program);
            match action {
                Schedule::Watch => if is_installed(table@, watch(root@), watch_marker()) {
                    r.table is None && r.plan@ == seq![
                        StepView::Say("watch: already installed (the current line)"@),
                    ]
                } else {
                    r.table matches Some(new) && new@ == merged(
                        table@,
                        watch(root@),
                        watch_marker(),
                    ) && r.plan@ == seq![
                        StepView::Say("watch: installed (*/10 — the idempotent repair)"@),
                        StepView::Say(
                            "  removal: crontab -l | grep -v 'unidpp-ops: always-on watch' | crontab -"@,
                        ),
                    ]
                },
                Schedule::Status => r.table is None && r.plan@ == status_report(table@),
                Schedule::Show => r.table is None && r.plan@ == seq![
                    StepView::Say(
                        "cron line (print-only; pass --install to add it to the crontab):"@,
                    ),
                    StepView::Say(line),
                ],
                Schedule::Install => if is_installed(table@, line, schedule_marker()) {
                    r.table is None && r.plan@ == seq![
                        StepView::Say("schedule: already installed (the current line)"@),
                    ]
                } else {
                    r.table matches Some(new) && new@ == merged(table@, line, schedule_marker())
                        && r.plan@ == seq![
                        StepView::Say(
                            "schedule: installed (17 3 * * * nightly — see 'crontab -l')"@,
                        ),
                    ]
                },
            }
        }),
{
    let mut plan = Plan::new();
    match action {
        Schedule::Watch => {
            let new = install(table, watch_line(root).as_str(), "unidpp-ops: always-on watch");
            if new.is_none() {
                plan.say_text("watch: already installed (the current line)");
            } else {
                plan.say_text("watch: installed (*/10 — the idempotent repair)");
                plan.say_text(
                    "  removal: crontab -l | grep -v 'unidpp-ops: always-on watch' | crontab -",
                );
            }
            Scheduled { table: new, plan }
        },
        Schedule::Status => {
            let chars = chars_of(table);
            let nightly_there = contains_text(
                chars.as_slice(),
                chars_of("unidpp-ops: nightly backup").as_slice(),
            );
            let watch_there = contains_text(
                chars.as_slice(),
                chars_of("unidpp-ops: always-on watch").as_slice(),
            );
            plan.say(
                cat2(
                    "backup: ",
                    if nightly_there {
                        "installed (nightly at 03:17)"
                    } else {
                        "not installed — pass --install"
                    },
                ),
            );
            plan.say(
                cat2(
                    "watch:  ",
                    if watch_there {
                        "installed (the */10 idempotent repair)"
                    } else {
                        "not installed — pass --watch --install"
                    },
                ),
            );
            Scheduled { table: None, plan }
        },
        Schedule::Show => {
            plan.say_text("cron line (print-only; pass --install to add it to the crontab):");
            plan.say(schedule_line(root, exe));
            Scheduled { table: None, plan }
        },
        Schedule::Install => {
            let line = schedule_line(root, exe);
            let new = install(table, line.as_str(), "unidpp-ops: nightly backup");
            if new.is_none() {
                plan.say_text("schedule: already installed (the current line)");
            } else {
                plan.say_text("schedule: installed (17 3 * * * nightly — see 'crontab -l')");
            }
            Scheduled { table: new, plan }
        },
    }
}

// ---------------------------------------------------------------------------
// `prune [--keep N] [--apply]`.
// ---------------------------------------------------------------------------

/// A number in digits.
pub open spec fn is_count(n: Seq<char>) -> bool {
    n.len() > 0 && text::all_in(n, Class::Digit)
}

/// The number of archives to keep; one that is too large for the machine
/// keeps as many as there can be.
pub open spec fn count_to_keep(n: Seq<char>) -> nat {
    if decimal::number(n) <= usize::MAX {
        decimal::number(n)
    } else {
        usize::MAX as nat
    }
}

/// What the arguments of `prune` ask for: how many archives to keep and
/// whether to delete the others.
pub open spec fn prune_request(args: Seq<Seq<char>>, keep: nat, apply: bool) -> Result<
    (nat, bool),
    Seq<char>,
>
    decreases args.len(),
{
    if args.len() == 0 {
        Ok((keep, apply))
    } else if args[0] == "--keep"@ {
        if args.len() > 1 && is_count(args[1]) {
            prune_request(args.skip(2), count_to_keep(args[1]), apply)
        } else {
            Err("--keep needs a number"@)
        }
    } else if text::starts_with(args[0], "--keep="@) {
        let n = args[0].skip("--keep="@.len() as int);
        if is_count(n) {
            prune_request(args.skip(1), count_to_keep(n), apply)
        } else {
            Err("--keep needs a number"@)
        }
    } else if args[0] == "--apply"@ {
        prune_request(args.skip(1), keep, true)
    } else {
        Err("usage: prune [--keep N] [--apply]"@)
    }
}

fn count_of(n: &[char]) -> (r: Option<usize>)
    ensures
        match r {
            Some(k) => is_count(n@) && k == count_to_keep(n@),
            None => !is_count(n@),
        },
{
    if n.len() == 0 || !every(n, &Class::Digit) {
        return None;
    }
    assert(Class::Digit.has(n@[0]));
    match parsed_number(n, usize::MAX as u64) {
        Some(k) => Some(k as usize),
        None => Some(usize::MAX),
    }
}

/// What the arguments of `prune` ask for.
pub fn prune_args(args: &Vec<String>) -> (r: Result<(usize, bool), String>)
    ensures
        match r {
            Ok(p) => prune_request(text::views(args@), 14, false) == Ok::<_, Seq<char>>(
                (p.0 as nat, p.1),
            ),
            Err(m) => prune_request(text::views(args@), 14, false) == Err::<(nat, bool), _>(m@),
        },
{
    let ghost all = text::views(args@);
    let mut keep: usize = 14;
    let mut apply = false;
    let mut i: usize = 0;
    assert(all.skip(0) =~= all);
    while i < args.len()
        invariant
            i <= args.len(),
            all == text::views(args@),
            prune_request(all.skip(i as int), keep as nat, apply) == prune_request(all, 14, false),
        decreases args.len() - i,
    {
        let ghost rest = all.skip(i as int);
        let arg = args[i].as_str();
        assert(rest[0] == arg@);
        assert(rest.skip(1) =~= all.skip(i + 1));
        let chars = chars_of(arg);
        let eq = chars_of("--keep=");
        if same_text(arg, "--keep") {
            if i + 1 >= args.len() {
                return Err("--keep needs a number".to_string());
            }
            assert(rest[1] == args@[i + 1]@);
            assert(rest.skip(2) =~= all.skip(i + 2));
            match count_of(chars_of(args[i + 1].as_str()).as_slice()) {
                Some(k) => {
                    keep = k;
                },
                None => {
                    return Err("--keep needs a number".to_string());
                },
            }
            i += 2;
        } else if begins(chars.as_slice(), eq.as_slice()) {
            let n = slice_subrange(chars.as_slice(), eq.len(), chars.len());
            assert(n@ =~= arg@.skip("--keep="@.len() as int));
            match count_of(n) {
                Some(k) => {
                    keep = k;
                },
                None => {
                    return Err("--keep needs a number".to_string());
                },
            }
            i += 1;
        } else if same_text(arg, "--apply") {
            apply = true;
            i += 1;
        } else {
            return Err("usage: prune [--keep N] [--apply]".to_string());
        }
    }
    assert(all.skip(i as int).len() == 0);
    Ok((keep, apply))
}

/// What becomes of one archive beyond those to keep.
pub open spec fn pruned_one(backups: Seq<char>, name: Seq<char>, apply: bool) -> Seq<StepView> {
    let archive = path::below(backups, name);
    (if apply {
        seq![
            StepView::RemoveFile { path: archive },
            StepView::RemoveFile { path: backup::sidecar_path(archive) },
        ]
    } else {
        seq![]
    }) + seq![
        StepView::Say(
            (if apply {
                "  deleted: "@
            } else {
                "  candidate: "@
            }) + name + " (+ sidecar)"@,
        ),
    ]
}

/// What becomes of the archives beyond those to keep.
pub open spec fn pruned(backups: Seq<char>, names: Seq<Seq<char>>, apply: bool) -> Seq<StepView>
    decreases names.len(),
{
    if names.len() == 0 {
        Seq::empty()
    } else {
        pruned(backups, names.drop_last(), apply) + pruned_one(backups, names.last(), apply)
    }
}

/// The archives beyond the newest ones.
pub open spec fn beyond(archives: Seq<Seq<char>>, keep: nat) -> Seq<Seq<char>> {
    if keep < archives.len() {
        archives.skip(keep as int)
    } else {
        Seq::empty()
    }
}

/// What `prune` does to the archives, newest first.
pub open spec fn prune_steps(
    backups: Seq<char>,
    archives: Seq<Seq<char>>,
    keep: nat,
    apply: bool,
) -> Seq<StepView> {
    seq![
        StepView::Say(
            "prune: "@ + decimal::decimal(archives.len()) + " backup(s), keeping the newest "@
                + decimal::decimal(keep),
        ),
    ] + pruned(backups, beyond(archives, keep), apply) + if archives.len() > keep && !apply {
        seq![
            StepView::Say(
                "  report-only — pass --apply to delete exactly the listed backup(s)"@,
            ),
        ]
    } else {
        seq![]
    }
}

/// `prune [--keep N] [--apply]` — retention over the backups directory,
/// listing everything beyond the newest N archives.
pub fn cmd_prune(backups: &str, archives: &Vec<String>, keep: usize, apply: bool) -> (r: Plan)
    ensures
        r@ == prune_steps(backups@, text::views(archives@), keep as nat, apply),
{
    let ghost all = text::views(archives@);
    let ghost old_ones = beyond(all, keep as nat);
    let total = archives.len();
    let mut plan = Plan::new();
    plan.say(
        cat4(
            "prune: ",
            decimal_of(total as u64).as_str(),
            " backup(s), keeping the newest ",
            decimal_of(keep as u64).as_str(),
        ),
    );
    let ghost head = plan@;
    let mut i: usize = keep;
    assert(head =~= head + pruned(backups@, old_ones.take(0), apply));
    while i < total
        invariant
            keep <= i,
            i <= total || i == keep,
            total == archives.len(),
            all == text::views(archives@),
            old_ones == beyond(all, keep as nat),
            i <= total ==> plan@ == head + pruned(backups@, old_ones.take(i - keep), apply),
            i > total ==> plan@ == head,
        decreases total - i,
    {
        let name = archives[i].as_str();
        let archive = join(backups, name);
        let ghost before = plan@;
        assert(old_ones[i - keep] == name@);
        assert(old_ones.take(i + 1 - keep).drop_last() =~= old_ones.take(i - keep));
        assert(old_ones.take(i + 1 - keep).last() == name@);
        if apply {
            let sidecar = sidecar_of(archive.as_str());
            plan.then_do(Step::RemoveFile { path: archive });
            plan.then_do(Step::RemoveFile { path: sidecar });
        }
        plan.say(
            cat3(
                if apply {
                    "  deleted: "
                } else {
                    "  candidate: "
                },
                name,
                " (+ sidecar)",
            ),
        );
        assert(plan@ =~= before + pruned_one(backups@, name@, apply));
        i += 1;
        assert(plan@ =~= head + pruned(backups@, old_ones.take(i - keep), apply));
    }
    proof {
        if keep < total {
            assert(old_ones.take(i - keep) =~= old_ones);
        } else {
            assert(pruned(backups@, old_ones, apply) =~= Seq::<StepView>::empty());
            assert(plan@ =~= head + pruned(backups@, old_ones, apply));
        }
    }
    if total > keep && !apply {
        plan.say_text("  report-only — pass --apply to delete exactly the listed backup(s)");
    }
    plan
}

/// What is removed is an archive beyond those to keep, or its sidecar.
proof fn lemma_pruned(backups: Seq<char>, names: Seq<Seq<char>>, apply: bool)
    ensures
        forall|i: int|
            0 <= i < pruned(backups, names, apply).len() && plan::touches_files(
                #[trigger] pruned(backups, names, apply)[i],
            ) ==> apply && exists|j: int|
                0 <= j < names.len() && {
                    let archive = path::below(backups, #[trigger] names[j]);
                    let step = pruned(backups, names, apply)[i];
                    ||| step == StepView::RemoveFile { path: archive }
                    ||| step == StepView::RemoveFile { path: backup::sidecar_path(archive) }
                },
        apply ==> forall|j: int|
            0 <= j < names.len() ==> pruned(backups, names, apply).contains(
                StepView::RemoveFile { path: path::below(backups, #[trigger] names[j]) },
            ),
    decreases names.len(),
{
    if names.len() > 0 {
        let rest = names.drop_last();
        lemma_pruned(backups, rest, apply);
        let a = pruned(backups, rest, apply);
        let b = pruned_one(backups, names.last(), apply);
        let all = pruned(backups, names, apply);
        assert forall|i: int| 0 <= i < all.len() && plan::touches_files(
            #[trigger] all[i],
        ) implies apply && exists|j: int|
            0 <= j < names.len() && {
                let archive = path::below(backups, #[trigger] names[j]);
                ||| all[i] == StepView::RemoveFile { path: archive }
                ||| all[i] == StepView::RemoveFile { path: backup::sidecar_path(archive) }
            } by {
            if i < a.len() {
                assert(all[i] == a[i]);
                let j = choose|j: int|
                    0 <= j < rest.len() && {
                        let archive = path::below(backups, #[trigger] rest[j]);
                        ||| a[i] == StepView::RemoveFile { path: archive }
                        ||| a[i] == StepView::RemoveFile { path: backup::sidecar_path(archive) }
                    };
                assert(names[j] == rest[j]);
            } else {
                assert(all[i] == b[i - a.len()]);
                assert(names[names.len() - 1] == names.last());
            }
        }
        if apply {
            assert forall|j: int| 0 <= j < names.len() implies all.contains(
                StepView::RemoveFile { path: path::below(backups, #[trigger] names[j]) },
            ) by {
                let step = StepView::RemoveFile { path: path::below(backups, names[j]) };
                if j < rest.len() {
                    assert(rest[j] == names[j]);
                    assert(a.contains(step));
                    let i = choose|i: int| 0 <= i < a.len() && a[i] == step;
                    assert(all[i] == step);
                } else {
                    assert(b[0] == step);
                    assert(all[a.len() as int] == step);
                }
            }
        }
    }
}

/// Prune touches nothing unless it is told to, and then it deletes exactly
/// the archives beyond the newest N, with their sidecars.
pub proof fn law_prune_keeps_the_newest(
    backups: Seq<char>,
    archives: Seq<Seq<char>>,
    keep: nat,
    apply: bool,
)
    ensures
        forall|i: int|
            0 <= i < prune_steps(backups, archives, keep, apply).len() && plan::touches_files(
                #[trigger] prune_steps(backups, archives, keep, apply)[i],
            ) ==> apply && exists|j: int|
                keep <= j < archives.len() && {
                    let archive = path::below(backups, #[trigger] archives[j]);
                    let step = prune_steps(backups, archives, keep, apply)[i];
                    ||| step == StepView::RemoveFile { path: archive }
                    ||| step == StepView::RemoveFile { path: backup::sidecar_path(archive) }
                },
        apply ==> forall|j: int|
            keep <= j < archives.len() ==> prune_steps(backups, archives, keep, apply).contains(
                StepView::RemoveFile { path: path::below(backups, #[trigger] archives[j]) },
            ),
{
    let names = beyond(archives, keep);
    lemma_pruned(backups, names, apply);
    let steps = prune_steps(backups, archives, keep, apply);
    let mid = pruned(backups, names, apply);
    assert forall|i: int| 0 <= i < steps.len() && plan::touches_files(
        #[trigger] steps[i],
    ) implies apply && exists|j: int|
        keep <= j < archives.len() && {
            let archive = path::below(backups, #[trigger] archives[j]);
            ||| steps[i] == StepView::RemoveFile { path: archive }
            ||| steps[i] == StepView::RemoveFile { path: backup::sidecar_path(archive) }
        } by {
        assert(0 < i <= mid.len());
        assert(steps[i] == mid[i - 1]);
        let j = choose|j: int|
            0 <= j < names.len() && {
                let archive = path::below(backups, #[trigger] names[j]);
                ||| mid[i - 1] == StepView::RemoveFile { path: archive }
                ||| mid[i - 1] == StepView::RemoveFile { path: backup::sidecar_path(archive) }
            };
        assert(archives[j + keep] == names[j]);
    }
    if apply {
        assert forall|j: int| keep <= j < archives.len() implies steps.contains(
            StepView::RemoveFile { path: path::below(backups, #[trigger] archives[j]) },
        ) by {
            let step = StepView::RemoveFile { path: path::below(backups, archives[j]) };
            assert(names[j - keep] == archives[j]);
            assert(mid.contains(step));
            let i = choose|i: int| 0 <= i < mid.len() && mid[i] == step;
            assert(steps[i + 1] == step);
        }
    }
}

/// The status tells what is in the table, by the marks that the lines bear: the
/// nightly backup and the watch, each by itself.
pub proof fn law_the_status_goes_by_the_marks(table: Seq<char>, root: Seq<char>, exe: Seq<char>)
    ensures
        status_report(table).len() == 2,
        status_report(table)[0] == StepView::Say("backup: "@ + "installed (nightly at 03:17)"@)
            <==> text::holds_text(table, "unidpp-ops: nightly backup"@),
        status_report(table)[1] == StepView::Say(
            "watch:  "@ + "installed (the */10 idempotent repair)"@,
        ) <==> text::holds_text(table, "unidpp-ops: always-on watch"@),
        text::starts_with(nightly(root, exe), "17 3 * * * cd "@ + root + " && "@ + exe),
        text::ends_with(nightly(root, exe), "# "@ + "unidpp-ops: nightly backup"@),
        text::starts_with(watch(root), "*/10 * * * * cd "@ + root + " && "@ + root),
        text::ends_with(watch(root), "# "@ + "unidpp-ops: always-on watch"@),
{
    reveal_strlit("backup: ");
    reveal_strlit("watch:  ");
    reveal_strlit("installed (nightly at 03:17)");
    reveal_strlit("not installed — pass --install");
    reveal_strlit("installed (the */10 idempotent repair)");
    reveal_strlit("not installed — pass --watch --install");
    let a = "backup: "@ + "installed (nightly at 03:17)"@;
    let b = "backup: "@ + "not installed — pass --install"@;
    assert(a[8] == 'i' && b[8] == 'n');
    let c = "watch:  "@ + "installed (the */10 idempotent repair)"@;
    let d = "watch:  "@ + "not installed — pass --watch --install"@;
    assert(c[8] == 'i' && d[8] == 'n');
    reveal_strlit("# ");
    reveal_strlit(" backup >> backups/schedule.log 2>&1 # ");
    reveal_strlit("/ops/target/release/unidpp-stack up >/dev/null 2>&1 # ");
    let n = nightly(root, exe);
    let front = "17 3 * * * cd "@ + root + " && "@ + exe;
    assert(n.take(front.len() as int) =~= front);
    let end = "# "@ + "unidpp-ops: nightly backup"@;
    assert(n.skip(n.len() - end.len()) =~= end);
    let w = watch(root);
    let start = "*/10 * * * * cd "@ + root + " && "@ + root;
    assert(w.take(start.len() as int) =~= start);
    let last = "# "@ + "unidpp-ops: always-on watch"@;
    assert(w.skip(w.len() - last.len()) =~= last);
}

} // verus!
