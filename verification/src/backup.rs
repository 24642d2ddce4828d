//! The backup and its verification: the deployment as data — the operator
//! manifest, every journal, the seed assets — in a versioned tar.gz beside a
//! JSON sidecar carrying every member's sha256, the UTC moment, and the log
//! tree head as the consistency point.

use vstd::prelude::*;
use vstd::slice::*;
use vstd::string::*;

use crate::archive::Member;
use crate::calendar;
use crate::calendar::utc_stamp;
use crate::decimal;
use crate::decimal::decimal_of;
use crate::digest;
use crate::digest::sha256_hex;
use crate::json;
use crate::json::{number_json, pretty, text_json, Fields, JsonView};
use crate::listing;
use crate::listing::{walk_matching, Tree, TreeView};
use crate::path;
use crate::path::join;
use crate::plan::{Fault, FaultView, Plan, Step, StepView};
use crate::text;
use crate::text::{cat2, cat3, cat4, chars_of, ends, same_text, text_of};

verus! {

// ---------------------------------------------------------------------------
// What a backup holds.
// ---------------------------------------------------------------------------

/// The sidecar path belonging to an archive.
pub open spec fn sidecar_path(archive: Seq<char>) -> Seq<char> {
    (if text::ends_with(archive, ".tar.gz"@) {
        archive.take(archive.len() - ".tar.gz"@.len())
    } else {
        archive
    }) + ".json"@
}

/// The sidecar path belonging to an archive (a backup is archive plus
/// sidecar; neither is whole without the other).
pub fn sidecar_of(archive: &str) -> (r: String)
    ensures
        r@ == sidecar_path(archive@),
{
    let chars = chars_of(archive);
    let suffix = chars_of(".tar.gz");
    if ends(chars.as_slice(), suffix.as_slice()) {
        let stem = slice_subrange(chars.as_slice(), 0, chars.len() - suffix.len());
        assert(stem@ =~= archive@.take(archive@.len() - ".tar.gz"@.len()));
        cat2(text_of(stem).as_str(), ".json")
    } else {
        cat2(archive, ".json")
    }
}

/// What a deployment's directory holds: the names of the regular files in it
/// and what stands below three of its directories.
pub struct Deployment {
    pub files: Vec<String>,
    pub run: Vec<Tree>,
    pub tenants: Vec<Tree>,
    pub seed: Vec<Tree>,
}

/// The name of a file under run/ or tenants/ that belongs to the deployment:
/// a manifest, a journal or a script.
pub open spec fn is_state() -> spec_fn(Seq<char>) -> bool {
    |name: Seq<char>|
        name == "unidpp-operator.yaml"@ || text::ends_with(name, "-journal.jsonl"@)
            || text::ends_with(name, ".sh"@)
}

/// Every file.
pub open spec fn is_any() -> spec_fn(Seq<char>) -> bool {
    |name: Seq<char>| true
}

/// The name, if it is among the names.
pub open spec fn if_present(names: Seq<Seq<char>>, name: Seq<char>) -> Seq<Seq<char>> {
    if names.contains(name) {
        seq![name]
    } else {
        seq![]
    }
}

/// The paths below a directory.
pub open spec fn under(dir: Seq<char>, paths: Seq<Seq<char>>) -> Seq<Seq<char>> {
    paths.map_values(|p: Seq<char>| dir + "/"@ + p)
}

/// The payload: manifest, root journals, every journal and script under run/
/// and tenants/, and every seed file.
pub open spec fn payload_of(
    files: Seq<Seq<char>>,
    run: Seq<TreeView>,
    tenants: Seq<TreeView>,
    seed: Seq<TreeView>,
) -> Seq<Seq<char>> {
    if_present(files, "unidpp-operator.yaml"@) + if_present(files, "registry-journal.jsonl"@)
        + if_present(files, "jp-registry-journal.jsonl"@) + under(
        "run"@,
        listing::walk(run, is_state()),
    ) + under("tenants"@, listing::walk(tenants, is_state())) + under(
        "seed"@,
        listing::walk(seed, is_any()),
    )
}

/// What lies under a directory.
pub proof fn lemma_in_under(dir: Seq<char>, paths: Seq<Seq<char>>, x: Seq<char>)
    ensures
        under(dir, paths).contains(x) <==> exists|p: Seq<char>| #[trigger]
            paths.contains(p) && x == dir + "/"@ + p,
        under(dir, paths).contains(x) ==> x.contains('/'),
{
    reveal_strlit("/");
    let all = under(dir, paths);
    if all.contains(x) {
        let i = choose|i: int| 0 <= i < all.len() && all[i] == x;
        assert(paths.contains(paths[i]));
        assert(x[dir.len() as int] == '/');
    }
    if exists|p: Seq<char>| #[trigger] paths.contains(p) && x == dir + "/"@ + p {
        let p = choose|p: Seq<char>| #[trigger] paths.contains(p) && x == dir + "/"@ + p;
        let i = choose|i: int| 0 <= i < paths.len() && paths[i] == p;
        assert(all[i] == x);
    }
}

/// What one list or the other holds.
pub proof fn lemma_in_both(a: Seq<Seq<char>>, b: Seq<Seq<char>>, x: Seq<char>)
    ensures
        (a + b).contains(x) <==> a.contains(x) || b.contains(x),
{
    let all = a + b;
    if all.contains(x) {
        let i = choose|i: int| 0 <= i < all.len() && all[i] == x;
        if i < a.len() {
            assert(a[i] == x);
        } else {
            assert(b[i - a.len()] == x);
        }
    }
    if a.contains(x) {
        let i = choose|i: int| 0 <= i < a.len() && a[i] == x;
        assert(all[i] == x);
    }
    if b.contains(x) {
        let i = choose|i: int| 0 <= i < b.len() && b[i] == x;
        assert(all[a.len() + i] == x);
    }
}

/// A name that is there.
pub proof fn lemma_in_present(names: Seq<Seq<char>>, name: Seq<char>, x: Seq<char>)
    ensures
        if_present(names, name).contains(x) <==> names.contains(name) && x == name,
{
    if names.contains(name) {
        assert(if_present(names, name)[0] == name);
    }
}

/// What a payload is made of.
proof fn lemma_in_payload(
    files: Seq<Seq<char>>,
    run: Seq<TreeView>,
    tenants: Seq<TreeView>,
    seed: Seq<TreeView>,
    x: Seq<char>,
)
    ensures
        payload_of(files, run, tenants, seed).contains(x) <==> {
            ||| if_present(files, "unidpp-operator.yaml"@).contains(x)
            ||| if_present(files, "registry-journal.jsonl"@).contains(x)
            ||| if_present(files, "jp-registry-journal.jsonl"@).contains(x)
            ||| under("run"@, listing::walk(run, is_state())).contains(x)
            ||| under("tenants"@, listing::walk(tenants, is_state())).contains(x)
            ||| under("seed"@, listing::walk(seed, is_any())).contains(x)
        },
{
    let a = if_present(files, "unidpp-operator.yaml"@);
    let b = if_present(files, "registry-journal.jsonl"@);
    let c = if_present(files, "jp-registry-journal.jsonl"@);
    let d = under("run"@, listing::walk(run, is_state()));
    let e = under("tenants"@, listing::walk(tenants, is_state()));
    let f = under("seed"@, listing::walk(seed, is_any()));
    lemma_in_both(a, b, x);
    lemma_in_both(a + b, c, x);
    lemma_in_both(a + b + c, d, x);
    lemma_in_both(a + b + c + d, e, x);
    lemma_in_both(a + b + c + d + e, f, x);
}

/// A name that a backup takes from the root of a deployment.
spec fn is_root_name(x: Seq<char>) -> bool {
    x == "unidpp-operator.yaml"@ || x == "registry-journal.jsonl"@ || x
        == "jp-registry-journal.jsonl"@
}

proof fn lemma_root_names(x: Seq<char>)
    requires
        is_root_name(x),
    ensures
        !x.contains('/'),
{
    reveal_strlit("unidpp-operator.yaml");
    reveal_strlit("registry-journal.jsonl");
    reveal_strlit("jp-registry-journal.jsonl");
}

/// A backup holds the manifest and both journals at the root exactly where
/// the deployment has them.
pub proof fn law_a_backup_holds_the_root(
    files: Seq<Seq<char>>,
    run: Seq<TreeView>,
    tenants: Seq<TreeView>,
    seed: Seq<TreeView>,
)
    ensures
        ({
            let held = payload_of(files, run, tenants, seed);
            &&& held.contains("unidpp-operator.yaml"@) <==> files.contains(
                "unidpp-operator.yaml"@,
            )
            &&& held.contains("registry-journal.jsonl"@) <==> files.contains(
                "registry-journal.jsonl"@,
            )
            &&& held.contains("jp-registry-journal.jsonl"@) <==> files.contains(
                "jp-registry-journal.jsonl"@,
            )
        }),
{
    assert forall|x: Seq<char>| #[trigger] is_root_name(x) implies payload_of(
        files,
        run,
        tenants,
        seed,
    ).contains(x) == files.contains(x) by {
        lemma_root_names(x);
        lemma_in_payload(files, run, tenants, seed, x);
        lemma_in_present(files, "unidpp-operator.yaml"@, x);
        lemma_in_present(files, "registry-journal.jsonl"@, x);
        lemma_in_present(files, "jp-registry-journal.jsonl"@, x);
        lemma_in_under("run"@, listing::walk(run, is_state()), x);
        lemma_in_under("tenants"@, listing::walk(tenants, is_state()), x);
        lemma_in_under("seed"@, listing::walk(seed, is_any()), x);
    }
    assert(is_root_name("unidpp-operator.yaml"@));
    assert(is_root_name("registry-journal.jsonl"@));
    assert(is_root_name("jp-registry-journal.jsonl"@));
}

/// A backup holds the state below the root: every journal, script and manifest
/// of the services and of the tenants, and every file of the seed, however
/// deep it lies.
pub proof fn law_a_backup_holds_the_state(
    files: Seq<Seq<char>>,
    run: Seq<TreeView>,
    tenants: Seq<TreeView>,
    seed: Seq<TreeView>,
    path: Seq<char>,
    name: Seq<char>,
)
    ensures
        ({
            let held = payload_of(files, run, tenants, seed);
            let is_kept = name == "unidpp-operator.yaml"@ || text::ends_with(
                name,
                "-journal.jsonl"@,
            ) || text::ends_with(name, ".sh"@);
            &&& listing::leads_to(run, path, name) && is_kept ==> held.contains("run/"@ + path)
            &&& listing::leads_to(tenants, path, name) && is_kept ==> held.contains(
                "tenants/"@ + path,
            )
            &&& listing::leads_to(seed, path, name) ==> held.contains("seed/"@ + path)
        }),
{
    lemma_dirs(path);
    let held = payload_of(files, run, tenants, seed);
    lemma_in_payload(files, run, tenants, seed, "run/"@ + path);
    lemma_in_payload(files, run, tenants, seed, "tenants/"@ + path);
    lemma_in_payload(files, run, tenants, seed, "seed/"@ + path);
    listing::law_walks_find_every_match(run, is_state(), path);
    listing::law_walks_find_every_match(tenants, is_state(), path);
    listing::law_walks_find_every_match(seed, is_any(), path);
    lemma_in_under("run"@, listing::walk(run, is_state()), "run/"@ + path);
    lemma_in_under("tenants"@, listing::walk(tenants, is_state()), "tenants/"@ + path);
    lemma_in_under("seed"@, listing::walk(seed, is_any()), "seed/"@ + path);
    if listing::leads_to(run, path, name) && is_state()(name) {
        assert(listing::walk(run, is_state()).contains(path));
    }
    if listing::leads_to(tenants, path, name) && is_state()(name) {
        assert(listing::walk(tenants, is_state()).contains(path));
    }
    if listing::leads_to(seed, path, name) {
        assert(is_any()(name));
        assert(listing::walk(seed, is_any()).contains(path));
    }
}

/// The directories of a deployment, with their slashes.
pub proof fn lemma_dirs(path: Seq<char>)
    ensures
        "run/"@ + path == "run"@ + "/"@ + path,
        "tenants/"@ + path == "tenants"@ + "/"@ + path,
        "seed/"@ + path == "seed"@ + "/"@ + path,
{
    reveal_strlit("/");
    reveal_strlit("run");
    reveal_strlit("run/");
    reveal_strlit("tenants");
    reveal_strlit("tenants/");
    reveal_strlit("seed");
    reveal_strlit("seed/");
    assert("run/"@ + path =~= "run"@ + "/"@ + path);
    assert("tenants/"@ + path =~= "tenants"@ + "/"@ + path);
    assert("seed/"@ + path =~= "seed"@ + "/"@ + path);
}

/// A backup holds data, not exhaust: besides the three names at the root there
/// are only journals, scripts and manifests of the services and of the tenants
/// and files of the seed, each of them there.
pub proof fn law_a_backup_holds_no_exhaust(
    files: Seq<Seq<char>>,
    run: Seq<TreeView>,
    tenants: Seq<TreeView>,
    seed: Seq<TreeView>,
    x: Seq<char>,
)
    requires
        payload_of(files, run, tenants, seed).contains(x),
    ensures
        ({
            let is_kept = text::ends_with(x, "unidpp-operator.yaml"@) || text::ends_with(
                x,
                "-journal.jsonl"@,
            ) || text::ends_with(x, ".sh"@);
            ||| files.contains(x) && (x == "unidpp-operator.yaml"@ || x
                == "registry-journal.jsonl"@ || x == "jp-registry-journal.jsonl"@)
            ||| is_kept && exists|path: Seq<char>, name: Seq<char>| #[trigger]
                listing::leads_to(run, path, name) && x == "run/"@ + path
            ||| is_kept && exists|path: Seq<char>, name: Seq<char>| #[trigger]
                listing::leads_to(tenants, path, name) && x == "tenants/"@ + path
            ||| exists|path: Seq<char>, name: Seq<char>| #[trigger]
                listing::leads_to(seed, path, name) && x == "seed/"@ + path
        }),
{
    lemma_in_payload(files, run, tenants, seed, x);
    lemma_in_present(files, "unidpp-operator.yaml"@, x);
    lemma_in_present(files, "registry-journal.jsonl"@, x);
    lemma_in_present(files, "jp-registry-journal.jsonl"@, x);
    lemma_in_under("run"@, listing::walk(run, is_state()), x);
    lemma_in_under("tenants"@, listing::walk(tenants, is_state()), x);
    lemma_in_under("seed"@, listing::walk(seed, is_any()), x);
    if under("run"@, listing::walk(run, is_state())).contains(x) {
        let path = choose|p: Seq<char>| #[trigger]
            listing::walk(run, is_state()).contains(p) && x == "run"@ + "/"@ + p;
        assert(x.skip(x.len() - path.len()) =~= path);
        lemma_kept_name(run, path, x);
    } else if under("tenants"@, listing::walk(tenants, is_state())).contains(x) {
        let path = choose|p: Seq<char>| #[trigger]
            listing::walk(tenants, is_state()).contains(p) && x == "tenants"@ + "/"@ + p;
        assert(x.skip(x.len() - path.len()) =~= path);
        lemma_kept_name(tenants, path, x);
    } else if under("seed"@, listing::walk(seed, is_any())).contains(x) {
        let path = choose|p: Seq<char>| #[trigger]
            listing::walk(seed, is_any()).contains(p) && x == "seed"@ + "/"@ + p;
        lemma_dirs(path);
        listing::law_walks_find_every_match(seed, is_any(), path);
    }
}

proof fn lemma_kept_name(entries: Seq<TreeView>, path: Seq<char>, x: Seq<char>)
    requires
        listing::walk(entries, is_state()).contains(path),
        text::ends_with(x, path),
    ensures
        text::ends_with(x, "unidpp-operator.yaml"@) || text::ends_with(x, "-journal.jsonl"@)
            || text::ends_with(x, ".sh"@),
        exists|name: Seq<char>| #[trigger] listing::leads_to(entries, path, name),
        "run/"@ + path == "run"@ + "/"@ + path,
        "tenants/"@ + path == "tenants"@ + "/"@ + path,
{
    lemma_dirs(path);
    listing::law_walks_find_every_match(entries, is_state(), path);
    let name = choose|name: Seq<char>| #[trigger]
        listing::leads_to(entries, path, name) && is_state()(name);
    listing::law_paths_end_with_their_names(entries, path, name);
    assert(x.skip(x.len() - name.len()) =~= path.skip(path.len() - name.len())) by {
        assert(x.skip(x.len() - path.len()) == path);
        assert(path.skip(path.len() - name.len()) =~= x.skip(x.len() - path.len()).skip(
            path.len() - name.len(),
        ));
    }
    lemma_ends(x, name, "-journal.jsonl"@);
    lemma_ends(x, name, ".sh"@);
}

proof fn lemma_ends(x: Seq<char>, name: Seq<char>, end: Seq<char>)
    requires
        text::ends_with(x, name),
    ensures
        text::ends_with(name, end) ==> text::ends_with(x, end),
{
    if text::ends_with(name, end) {
        assert(x.skip(x.len() - end.len()) =~= name.skip(name.len() - end.len())) by {
            assert(x.skip(x.len() - name.len()) == name);
            assert(name.skip(name.len() - end.len()) =~= x.skip(x.len() - name.len()).skip(
                name.len() - end.len(),
            ));
        }
    }
}

/// Whether a list of names holds a name.
pub fn contains_name(names: &Vec<String>, name: &str) -> (r: bool)
    ensures
        r == text::views(names@).contains(name@),
{
    let mut i: usize = 0;
    while i < names.len()
        invariant
            i <= names.len(),
            forall|j: int| 0 <= j < i ==> text::views(names@)[j] != name@,
        decreases names.len() - i,
    {
        assert(text::views(names@)[i as int] == names@[i as int]@);
        if same_text(names[i].as_str(), name) {
            return true;
        }
        i += 1;
    }
    false
}

pub(crate) fn push_present(out: &mut Vec<String>, names: &Vec<String>, name: &str)
    ensures
        text::views(final(out)@) == text::views(old(out)@) + if_present(text::views(names@), name@),
{
    let ghost before = text::views(out@);
    if contains_name(names, name) {
        out.push(name.to_string());
        assert(text::views(out@) =~= before + seq![name@]);
    } else {
        assert(text::views(out@) =~= before + Seq::<Seq<char>>::empty());
    }
}

pub(crate) fn push_under(out: &mut Vec<String>, dir: &str, paths: &Vec<String>)
    ensures
        text::views(final(out)@) == text::views(old(out)@) + under(dir@, text::views(paths@)),
{
    let ghost before = text::views(out@);
    let ghost all = under(dir@, text::views(paths@));
    let mut i: usize = 0;
    assert(all.take(0) =~= Seq::<Seq<char>>::empty());
    assert(before + all.take(0) =~= before);
    while i < paths.len()
        invariant
            i <= paths.len(),
            all == under(dir@, text::views(paths@)),
            text::views(out@) == before + all.take(i as int),
        decreases paths.len() - i,
    {
        let ghost sofar = text::views(out@);
        out.push(cat3(dir, "/", paths[i].as_str()));
        assert(text::views(out@) =~= sofar.push(all[i as int]));
        assert(all.take(i + 1) =~= all.take(i as int).push(all[i as int]));
        i += 1;
    }
    assert(all.take(i as int) =~= all);
}

fn belongs(name: &str) -> (r: bool)
    ensures
        r == is_state()(name@),
{
    let chars = chars_of(name);
    same_text(name, "unidpp-operator.yaml") || ends(
        chars.as_slice(),
        chars_of("-journal.jsonl").as_slice(),
    ) || ends(chars.as_slice(), chars_of(".sh").as_slice())
}

/// The payload list: manifest, root journals, every journal and script under
/// run/ and tenants/, and every seed file. Derived state (run/ logs, demo/,
/// backups/) is excluded by construction — data, not exhaust.
pub fn payload(root: &Deployment) -> (r: Vec<String>)
    ensures
        text::views(r@) == payload_of(
            text::views(root.files@),
            Tree::models(root.run@),
            Tree::models(root.tenants@),
            Tree::models(root.seed@),
        ),
        text::views(r@).contains("unidpp-operator.yaml"@) <==> text::views(root.files@).contains(
            "unidpp-operator.yaml"@,
        ),
        text::views(r@).contains("registry-journal.jsonl"@) <==> text::views(
            root.files@,
        ).contains("registry-journal.jsonl"@),
        text::views(r@).contains("jp-registry-journal.jsonl"@) <==> text::views(
            root.files@,
        ).contains("jp-registry-journal.jsonl"@),
{
    proof {
        law_a_backup_holds_the_root(
            text::views(root.files@),
            Tree::models(root.run@),
            Tree::models(root.tenants@),
            Tree::models(root.seed@),
        );
    }
    let mut files: Vec<String> = Vec::new();
    assert(text::views(files@) =~= Seq::<Seq<char>>::empty());
    push_present(&mut files, &root.files, "unidpp-operator.yaml");
    push_present(&mut files, &root.files, "registry-journal.jsonl");
    push_present(&mut files, &root.files, "jp-registry-journal.jsonl");
    let state = |name: &str| -> (r: bool)
        ensures
            r == is_state()(name@),
        { belongs(name) };
    let any = |name: &str| -> (r: bool)
        ensures
            r == is_any()(name@),
        { true };
    assert(listing::says(state, is_state()));
    assert(listing::says(any, is_any()));
    let run = walk_matching(&root.run, state);
    let tenants = walk_matching(&root.tenants, state);
    let seed = walk_matching(&root.seed, any);
    assert(text::views(run@) == listing::walk(Tree::models(root.run@), is_state()));
    assert(text::views(tenants@) == listing::walk(Tree::models(root.tenants@), is_state()));
    assert(text::views(seed@) == listing::walk(Tree::models(root.seed@), is_any()));
    push_under(&mut files, "run", &run);
    push_under(&mut files, "tenants", &tenants);
    push_under(&mut files, "seed", &seed);
    files
}

/// The payload of a backup; a deployment without one cannot be backed up.
pub fn backup_files(root: &Deployment) -> (r: Result<Vec<String>, String>)
    ensures
        ({
            let files = payload_of(
                text::views(root.files@),
                Tree::models(root.run@),
                Tree::models(root.tenants@),
                Tree::models(root.seed@),
            );
            match r {
                Ok(list) => files.len() > 0 && text::views(list@) == files,
                Err(m) => files.len() == 0 && m@ == "nothing to back up (no manifest?)"@,
            }
        }),
{
    let files = payload(root);
    assert(text::views(files@).len() == files@.len());
    if files.len() == 0 {
        Err("nothing to back up (no manifest?)".to_string())
    } else {
        Ok(files)
    }
}

// ---------------------------------------------------------------------------
// The sidecar.
// ---------------------------------------------------------------------------

/// What an archive holds under each name.
pub open spec fn contents(members: Seq<Member>) -> Map<Seq<char>, Seq<u8>>
    decreases members.len(),
{
    if members.len() == 0 {
        Map::empty()
    } else {
        contents(members.drop_last()).insert(members.last().name@, members.last().bytes@)
    }
}

/// The names of an archive's members.
pub open spec fn names_of(members: Seq<Member>) -> Seq<Seq<char>> {
    members.map_values(|m: Member| m.name@)
}

/// The checksum of every member.
pub open spec fn sums_of(held: Map<Seq<char>, Seq<u8>>) -> Map<Seq<char>, JsonView> {
    held.map_values(|bytes: Seq<u8>| JsonView::Text(digest::checksum(bytes)))
}

/// The member checksums of a freshly written archive: every regular member's
/// sha256, read back out of the archive itself so the sidecar describes what
/// was stored, not what was on disk.
pub fn member_checksums(members: &Vec<Member>) -> (r: Fields)
    ensures
        r@ == sums_of(contents(members@)),
{
    let mut out = Fields::new();
    let mut i: usize = 0;
    assert(members@.take(0) =~= Seq::<Member>::empty());
    assert(out@ =~= sums_of(contents(members@.take(0))));
    while i < members.len()
        invariant
            i <= members.len(),
            out@ == sums_of(contents(members@.take(i as int))),
        decreases members.len() - i,
    {
        let m = &members[i];
        out.put(m.name.as_str(), text_json(sha256_hex(m.bytes.as_slice()).as_str()));
        assert(members@.take(i + 1).drop_last() =~= members@.take(i as int));
        assert(members@.take(i + 1).last() == m);
        assert(out@ =~= sums_of(contents(members@.take(i + 1))));
        i += 1;
    }
    assert(members@.take(i as int) =~= members@);
    out
}

/// The sidecar of an archive: what it is, whose, from when, its consistency
/// point, and the checksum of every member.
pub open spec fn sidecar_doc(
    kind: Seq<char>,
    label: Seq<char>,
    tenant: Seq<char>,
    taken_at: Seq<char>,
    head: Seq<char>,
    held: Map<Seq<char>, Seq<u8>>,
) -> JsonView {
    JsonView::Object(
        Map::<Seq<char>, JsonView>::empty().insert(kind, JsonView::Text(label)).insert(
            "tenant"@,
            JsonView::Text(tenant),
        ).insert("taken_at_utc"@, JsonView::Text(taken_at)).insert(
            "consistency_point"@,
            JsonView::Object(
                Map::<Seq<char>, JsonView>::empty().insert(
                    "log_tree_head"@,
                    JsonView::Text(head),
                ),
            ),
        ).insert("file_count"@, json::number(held.dom().len())).insert(
            "sha256"@,
            JsonView::Object(sums_of(held)),
        ),
    )
}

proof fn lemma_sums_are_simple(held: Map<Seq<char>, Seq<u8>>)
    ensures
        json::simple(JsonView::Object(sums_of(held)), 99),
{
    reveal_with_fuel(json::simple, 2);
}

proof fn lemma_sidecar_is_simple(
    kind: Seq<char>,
    label: Seq<char>,
    tenant: Seq<char>,
    taken_at: Seq<char>,
    head: Seq<char>,
    held: Map<Seq<char>, Seq<u8>>,
)
    requires
        held.dom().len() <= u64::MAX,
    ensures
        json::simple(sidecar_doc(kind, label, tenant, taken_at, head, held), 100),
{
    let m0 = Map::<Seq<char>, JsonView>::empty();
    assert(json::simple(JsonView::Object(m0), 99));
    assert(json::simple(JsonView::Object(m0), 100));
    json::lemma_simple_insert(m0, "log_tree_head"@, JsonView::Text(head), 99);
    let point = JsonView::Object(m0.insert("log_tree_head"@, JsonView::Text(head)));
    let m1 = m0.insert(kind, JsonView::Text(label));
    json::lemma_simple_insert(m0, kind, JsonView::Text(label), 100);
    let m2 = m1.insert("tenant"@, JsonView::Text(tenant));
    json::lemma_simple_insert(m1, "tenant"@, JsonView::Text(tenant), 100);
    let m3 = m2.insert("taken_at_utc"@, JsonView::Text(taken_at));
    json::lemma_simple_insert(m2, "taken_at_utc"@, JsonView::Text(taken_at), 100);
    let m4 = m3.insert("consistency_point"@, point);
    json::lemma_simple_insert(m3, "consistency_point"@, point, 100);
    let count = held.dom().len();
    assert(json::simple(json::number(count), 99)) by {
        assert(decimal::decimal(count) == decimal::decimal((count as u64) as nat));
    }
    let m5 = m4.insert("file_count"@, json::number(count));
    json::lemma_simple_insert(m4, "file_count"@, json::number(count), 100);
    lemma_sums_are_simple(held);
    json::lemma_simple_insert(m5, "sha256"@, JsonView::Object(sums_of(held)), 100);
}

/// The text of a sidecar and the number of files in it.
pub(crate) fn sidecar_text(
    kind: &str,
    label: &str,
    tenant: &str,
    taken_at: &str,
    head: &str,
    members: &Vec<Member>,
) -> (r: (String, usize))
    ensures
        ({
            let held = contents(members@);
            let doc = sidecar_doc(kind@, label@, tenant@, taken_at@, head@, held);
            &&& r.0@ == json::pretty_text(doc)
            &&& json::parsed(r.0@) is Ok
            &&& json::parsed(r.0@)->Ok_0 == doc
            &&& r.1 == held.dom().len()
        }),
{
    let ghost held = contents(members@);
    let sums = member_checksums(members);
    let count = sums.count();
    assert(sums@.dom() =~= held.dom());
    let mut point = Fields::new();
    point.put("log_tree_head", text_json(head));
    let mut doc = Fields::new();
    doc.put(kind, text_json(label));
    doc.put("tenant", text_json(tenant));
    doc.put("taken_at_utc", text_json(taken_at));
    doc.put("consistency_point", point.done());
    doc.put("file_count", number_json(count as u64));
    doc.put("sha256", sums.done());
    let whole = doc.done();
    proof {
        lemma_sidecar_is_simple(kind@, label@, tenant@, taken_at@, head@, held);
    }
    (pretty(&whole), count)
}

/// A backup in the making.
pub struct Backup {
    pub label: String,
    pub tenant: String,
    /// The moment it is taken, in the house format.
    pub taken_at: String,
    pub archive: String,
}

/// The label, the moment and the archive of a backup.
pub fn begin_backup(backups: &str, tenant: &str, epoch: u64) -> (r: Backup)
    ensures
        r.tenant@ == tenant@,
        r.taken_at@ == calendar::stamp(epoch as nat),
        r.label@ == tenant@ + "-"@ + calendar::stamp(epoch as nat),
        r.archive@ == path::below(backups@, r.label@ + ".tar.gz"@),
{
    let taken_at = utc_stamp(epoch);
    let label = cat3(tenant, "-", taken_at.as_str());
    let archive = join(backups, cat2(label.as_str(), ".tar.gz").as_str());
    Backup { label, tenant: tenant.to_string(), taken_at, archive }
}

/// The document that a backup's sidecar holds.
pub open spec fn backup_doc(backup: Backup, head: Seq<char>, members: Seq<Member>) -> JsonView {
    sidecar_doc(
        "backup"@,
        backup.label@,
        backup.tenant@,
        backup.taken_at@,
        head,
        contents(members),
    )
}

/// What completes a backup once its archive is written: the sidecar, and the
/// report unless it is not wanted.
pub fn perform_backup(backup: &Backup, tree_head: &str, members: &Vec<Member>, quiet: bool) -> (r:
    Plan)
    ensures
        ({
            let doc = backup_doc(*backup, tree_head@, members@);
            let text = json::pretty_text(doc);
            &&& r@ == seq![
                StepView::Write {
                    path: sidecar_path(backup.archive@),
                    text,
                    fault: FaultView::Die("cannot write the sidecar"@),
                },
            ] + if quiet {
                seq![]
            } else {
                seq![
                    StepView::Say("backup: "@ + backup.label@),
                    StepView::Say(
                        "  files: "@ + decimal::decimal(contents(members@).dom().len())
                            + "  consistency point: "@ + tree_head@,
                    ),
                    StepView::Say("  archive: "@ + backup.archive@),
                ]
            }
            &&& json::parsed(text) is Ok
            &&& json::parsed(text)->Ok_0 == doc
        }),
{
    let (text, count) = sidecar_text(
        "backup",
        backup.label.as_str(),
        backup.tenant.as_str(),
        backup.taken_at.as_str(),
        tree_head,
        members,
    );
    let mut plan = Plan::new();
    let write = Step::Write {
        path: sidecar_of(backup.archive.as_str()),
        text,
        fault: Fault::Die("cannot write the sidecar".to_string()),
    };
    plan.then_do(write);
    if !quiet {
        plan.say(cat2("backup: ", backup.label.as_str()));
        plan.say(
            cat4(
                "  files: ",
                decimal_of(count as u64).as_str(),
                "  consistency point: ",
                tree_head,
            ),
        );
        plan.say(cat2("  archive: ", backup.archive.as_str()));
    }
    plan
}

} // verus!
