//! What a command does to the world, as a list of steps: lines to print,
//! files and directories to make, move and remove.

use vstd::prelude::*;
use vstd::seq_lib::*;
use vstd::string::*;

use crate::backup::contains_name;
use crate::calendar;
use crate::calendar::utc_stamp;
use crate::decimal;
use crate::decimal::decimal_of;
use crate::path;
use crate::path::join;
use crate::text;
use crate::text::{cat2, cat3, cat5};

verus! {

/// What follows when a step fails, as mathematics.
pub enum FaultView {
    Die(Seq<char>),
    Panic,
    Ignore,
}

/// What follows when a step fails.
pub enum Fault {
    /// The program ends, and says this and what went wrong.
    Die(String),
    /// The program panics.
    Panic,
    /// Nothing.
    Ignore,
}

impl View for Fault {
    type V = FaultView;

    open spec fn view(&self) -> FaultView {
        match self {
            Fault::Die(complaint) => FaultView::Die(complaint@),
            Fault::Panic => FaultView::Panic,
            Fault::Ignore => FaultView::Ignore,
        }
    }
}

/// One thing to do, as mathematics.
pub enum StepView {
    Say(Seq<char>),
    Warn(Seq<char>),
    MakeDir { path: Seq<char>, fault: FaultView },
    Write { path: Seq<char>, text: Seq<char>, fault: FaultView },
    Place { path: Seq<char>, bytes: Seq<u8> },
    Rename { from: Seq<char>, to: Seq<char>, fault: FaultView },
    Copy { from: Seq<char>, to: Seq<char> },
    Stage { from: Seq<char>, to: Seq<char> },
    MarkExecutable { path: Seq<char> },
    RemoveFile { path: Seq<char> },
    RemoveTree { path: Seq<char> },
}

/// One thing to do.
pub enum Step {
    /// Print a line on the standard output.
    Say(String),
    /// Print a line on the standard error.
    Warn(String),
    /// Make a directory, and those above it.
    MakeDir { path: String, fault: Fault },
    /// Write a text into a file.
    Write { path: String, text: String, fault: Fault },
    /// Make the directories above a file and write bytes into it.
    Place { path: String, bytes: Vec<u8> },
    /// Move a file or a directory.
    Rename { from: String, to: String, fault: Fault },
    /// Copy a file.
    Copy { from: String, to: String },
    /// Make the directories above a file and copy another one into it.
    Stage { from: String, to: String },
    /// Give a file the mode of a program; a failure does not matter.
    MarkExecutable { path: String },
    /// Remove a file; a failure does not matter.
    RemoveFile { path: String },
    /// Remove a directory and all below it; a failure does not matter.
    RemoveTree { path: String },
}

impl View for Step {
    type V = StepView;

    open spec fn view(&self) -> StepView {
        match self {
            Step::Say(line) => StepView::Say(line@),
            Step::Warn(line) => StepView::Warn(line@),
            Step::MakeDir { path, fault } => StepView::MakeDir { path: path@, fault: fault@ },
            Step::Write { path, text, fault } => StepView::Write {
                path: path@,
                text: text@,
                fault: fault@,
            },
            Step::Place { path, bytes } => StepView::Place { path: path@, bytes: bytes@ },
            Step::Rename { from, to, fault } => StepView::Rename {
                from: from@,
                to: to@,
                fault: fault@,
            },
            Step::Copy { from, to } => StepView::Copy { from: from@, to: to@ },
            Step::Stage { from, to } => StepView::Stage { from: from@, to: to@ },
            Step::MarkExecutable { path } => StepView::MarkExecutable { path: path@ },
            Step::RemoveFile { path } => StepView::RemoveFile { path: path@ },
            Step::RemoveTree { path } => StepView::RemoveTree { path: path@ },
        }
    }
}

/// Things to do, one after the other.
pub struct Plan {
    pub steps: Vec<Step>,
}

impl View for Plan {
    type V = Seq<StepView>;

    open spec fn view(&self) -> Seq<StepView> {
        self.steps@.map_values(|s: Step| s@)
    }
}

impl Plan {
    /// Nothing to do.
    pub fn new() -> (r: Plan)
        ensures
            r@ == Seq::<StepView>::empty(),
    {
        let r = Plan { steps: Vec::new() };
        assert(r@ =~= Seq::<StepView>::empty());
        r
    }

    /// One more thing to do.
    pub fn then_do(&mut self, step: Step)
        ensures
            final(self)@ == old(self)@.push(step@),
    {
        let ghost before = self@;
        self.steps.push(step);
        assert(self@ =~= before.push(step@));
    }

    /// One more line on the standard output.
    pub fn say(&mut self, line: String)
        ensures
            final(self)@ == old(self)@.push(StepView::Say(line@)),
    {
        self.then_do(Step::Say(line));
    }

    /// One more line on the standard output.
    pub fn say_text(&mut self, line: &str)
        ensures
            final(self)@ == old(self)@.push(StepView::Say(line@)),
    {
        self.then_do(Step::Say(line.to_string()));
    }
}

/// How a command goes on once its steps are done, as mathematics.
pub enum EndingView {
    Done,
    Die(Seq<char>),
    Fail,
}

/// How a command goes on once its steps are done.
pub enum Ending {
    /// It has succeeded.
    Done,
    /// It ends, and says why.
    Die(String),
    /// It ends with failure and says nothing more.
    Fail,
}

impl View for Ending {
    type V = EndingView;

    open spec fn view(&self) -> EndingView {
        match self {
            Ending::Done => EndingView::Done,
            Ending::Die(m) => EndingView::Die(m@),
            Ending::Fail => EndingView::Fail,
        }
    }
}

/// Things to do, and how the command goes on after them.
pub struct Outcome {
    pub plan: Plan,
    pub ending: Ending,
}

/// A scratch directory, and how it is made.
pub struct Scratch {
    pub name: String,
    pub path: String,
    pub plan: Plan,
}

/// A name of a scratch directory: the moment and the process tell it apart,
/// and from the second one on a number does.
pub open spec fn scratch_name(stem: Seq<char>, epoch: nat, process: nat, k: nat) -> Seq<char> {
    let first = stem + "-"@ + calendar::stamp(epoch) + "-"@ + decimal::decimal(process);
    if k == 0 {
        first
    } else {
        first + "-"@ + decimal::decimal(k)
    }
}

/// The first of these names that is not taken.
pub open spec fn is_first_free(
    present: Seq<Seq<char>>,
    stem: Seq<char>,
    epoch: nat,
    process: nat,
    k: nat,
) -> bool {
    &&& !present.contains(scratch_name(stem, epoch, process, k))
    &&& forall|j: nat| j < k ==> present.contains(#[trigger] scratch_name(stem, epoch, process, j))
}

/// The numbers tell the names apart.
proof fn lemma_scratch_names_differ(stem: Seq<char>, epoch: nat, process: nat, j: nat, k: nat)
    requires
        j < k,
    ensures
        scratch_name(stem, epoch, process, j) != scratch_name(stem, epoch, process, k),
{
    reveal_strlit("-");
    let first = scratch_name(stem, epoch, process, 0);
    let x = scratch_name(stem, epoch, process, j);
    let y = scratch_name(stem, epoch, process, k);
    let n = (first + "-"@).len() as int;
    decimal::lemma_decimal(j);
    decimal::lemma_decimal(k);
    assert(y.skip(n) =~= decimal::decimal(k));
    if j > 0 {
        assert(x.skip(n) =~= decimal::decimal(j));
    }
}

/// Where the names up to a number are all taken, there are more names than
/// that.
proof fn lemma_taken(present: Seq<Seq<char>>, stem: Seq<char>, epoch: nat, process: nat, k: nat)
    requires
        forall|j: nat| j < k ==> present.contains(#[trigger] scratch_name(stem, epoch, process, j)),
    ensures
        k <= present.len(),
{
    let taken = Seq::new(k, |j: int| scratch_name(stem, epoch, process, j as nat));
    assert forall|a: int, b: int|
        0 <= a < taken.len() && 0 <= b < taken.len() && a != b implies taken[a] != taken[b] by {
        if a < b {
            lemma_scratch_names_differ(stem, epoch, process, a as nat, b as nat);
        } else {
            lemma_scratch_names_differ(stem, epoch, process, b as nat, a as nat);
        }
    }
    taken.unique_seq_to_set();
    present.lemma_cardinality_of_set();
    seq_to_set_is_finite(present);
    assert(taken.to_set().subset_of(present.to_set())) by {
        assert forall|x: Seq<char>| taken.to_set().contains(x) implies present.to_set().contains(
            x,
        ) by {
            let j = choose|j: int| 0 <= j < taken.len() && taken[j] == x;
            assert(present.contains(scratch_name(stem, epoch, process, j as nat)));
        }
    }
    vstd::set_lib::lemma_len_subset(taken.to_set(), present.to_set());
}

/// A unique scratch directory of a process below the directory of temporary
/// files, given the names that are there.
pub fn scratch_dir(
    temp: &str,
    present: &Vec<String>,
    stem: &str,
    epoch: u64,
    process: u32,
) -> (r: Scratch)
    ensures
        !text::views(present@).contains(r.name@),
        exists|k: nat| #[trigger]
            is_first_free(text::views(present@), stem@, epoch as nat, process as nat, k)
                && r.name@ == scratch_name(stem@, epoch as nat, process as nat, k),
        r.path@ == path::below(temp@, r.name@),
        r.plan@ == seq![
            StepView::MakeDir {
                path: r.path@,
                fault: FaultView::Die("cannot create scratch dir "@ + r.path@),
            },
        ],
{
    let ghost here = text::views(present@);
    let ghost e = epoch as nat;
    let ghost p = process as nat;
    let first = cat5(
        stem,
        "-",
        utc_stamp(epoch).as_str(),
        "-",
        decimal_of(process as u64).as_str(),
    );
    let mut k: usize = 0;
    let mut name = first.clone();
    while contains_name(present, name.as_str())
        invariant
            here == text::views(present@),
            e == epoch as nat,
            p == process as nat,
            first@ == scratch_name(stem@, e, p, 0),
            name@ == scratch_name(stem@, e, p, k as nat),
            k <= here.len(),
            here.len() == present@.len(),
            forall|j: nat| j < k ==> here.contains(#[trigger] scratch_name(stem@, e, p, j)),
        decreases here.len() - k,
    {
        proof {
            lemma_taken(here, stem@, e, p, (k + 1) as nat);
            assert(here.len() <= present.len());
        }
        k += 1;
        name = cat3(first.as_str(), "-", decimal_of(k as u64).as_str());
    }
    assert(is_first_free(here, stem@, e, p, k as nat));
    let path = join(temp, name.as_str());
    let mut plan = Plan::new();
    plan.then_do(
        Step::MakeDir {
            path: path.clone(),
            fault: Fault::Die(cat2("cannot create scratch dir ", path.as_str())),
        },
    );
    Scratch { name, path, plan }
}

/// The step changes the file system.
pub open spec fn touches_files(s: StepView) -> bool {
    !(s is Say || s is Warn)
}

/// The step removes something.
pub open spec fn removes(s: StepView) -> bool {
    s is RemoveFile || s is RemoveTree
}

} // verus!
