//! Archives: what is asked of the `tar` tool and what its answers mean. The
//! tool is invoked with every argument as an element of its own, so no member
//! name ever reaches a shell.

use vstd::prelude::*;
use vstd::string::*;

use crate::text;
use crate::text::{cat2, cat4, cat5, chars_of, ends, entries_of, text_from, text_of, trimmed};

verus! {

/// What a tool left behind when it ended.
pub struct ToolOutput {
    /// It ended with success.
    pub success: bool,
    pub stdout: Vec<u8>,
    pub stderr: Vec<u8>,
}

/// A regular file of an archive.
pub struct Member {
    pub name: String,
    pub bytes: Vec<u8>,
}

/// The names of the regular files in an archive's listing, in stored order:
/// what ends with a slash is a directory.
pub open spec fn listed_members(listing: Seq<char>) -> Seq<Seq<char>> {
    text::entries(listing).filter(|name: Seq<char>| !text::ends_with(name, "/"@))
}

/// What a tool complained about.
pub open spec fn complaint(out: ToolOutput) -> Seq<char> {
    text::trim(text::lossy(out.stderr@))
}

/// What a tool complained about.
fn complaint_of(out: &ToolOutput) -> (r: String)
    ensures
        r@ == complaint(*out),
{
    let said = text_from(out.stderr.as_slice());
    text_of(trimmed(chars_of(said.as_str()).as_slice()))
}

/// The arguments that list an archive.
pub fn list_args(archive: &str) -> (r: Vec<String>)
    ensures
        text::views(r@) == seq!["-tzf"@, archive@],
{
    let r = vec!["-tzf".to_string(), archive.to_string()];
    assert(text::views(r@) =~= seq!["-tzf"@, archive@]);
    r
}

/// The arguments that stream one member out of an archive.
pub fn extract_args(archive: &str, member: &str) -> (r: Vec<String>)
    ensures
        text::views(r@) == seq!["-xOzf"@, archive@, member@],
{
    let r = vec!["-xOzf".to_string(), archive.to_string(), member.to_string()];
    assert(text::views(r@) =~= seq!["-xOzf"@, archive@, member@]);
    r
}

/// The arguments for a versioned tar.gz of the given paths, rooted at `base`
/// (the members are stored under their relative names).
pub fn tar_create(archive: &str, base: &str, members: &Vec<String>) -> (r: Vec<String>)
    ensures
        text::views(r@) == seq!["-czf"@, archive@, "-C"@, base@] + text::views(members@),
{
    let mut r = vec![
        "-czf".to_string(),
        archive.to_string(),
        "-C".to_string(),
        base.to_string(),
    ];
    let ghost head = seq!["-czf"@, archive@, "-C"@, base@];
    assert(text::views(r@) =~= head);
    assert(text::views(members@).take(0) =~= Seq::<Seq<char>>::empty());
    let mut i: usize = 0;
    while i < members.len()
        invariant
            i <= members.len(),
            text::views(r@) == head + text::views(members@).take(i as int),
        decreases members.len() - i,
    {
        let ghost before = text::views(r@);
        r.push(members[i].clone());
        assert(text::views(r@) =~= before.push(members@[i as int]@));
        assert(text::views(members@).take(i + 1) =~= text::views(members@).take(i as int).push(
            members@[i as int]@,
        ));
        i += 1;
    }
    assert(text::views(members@).take(i as int) =~= text::views(members@));
    r
}

/// Whether the archive was written, or what went wrong.
pub fn tar_created(out: &ToolOutput) -> (r: Result<(), String>)
    ensures
        match r {
            Ok(_) => out.success,
            Err(m) => !out.success && m@ == "tar failed: "@ + complaint(*out),
        },
{
    if out.success {
        Ok(())
    } else {
        Err(cat2("tar failed: ", complaint_of(out).as_str()))
    }
}

/// The regular-file members of an archive, in stored order, or what went
/// wrong with the listing.
pub fn tar_members(archive: &str, out: &ToolOutput) -> (r: Result<Vec<String>, String>)
    ensures
        match r {
            Ok(names) => out.success && text::views(names@) == listed_members(
                text::lossy(out.stdout@),
            ),
            Err(m) => !out.success && m@ == "cannot list "@ + archive@ + ": "@ + complaint(*out),
        },
{
    if !out.success {
        return Err(cat4("cannot list ", archive, ": ", complaint_of(out).as_str()));
    }
    let listing = text_from(out.stdout.as_slice());
    let all = entries_of(listing.as_str());
    let slash = chars_of("/");
    let ghost names = text::entries(listing@);
    let ghost kept = |name: Seq<char>| !text::ends_with(name, "/"@);
    let mut r: Vec<String> = Vec::new();
    let mut i: usize = 0;
    proof {
        reveal(Seq::filter);
        assert(names.take(0).filter(kept) =~= Seq::<Seq<char>>::empty());
        assert(text::views(r@) =~= Seq::<Seq<char>>::empty());
    }
    while i < all.len()
        invariant
            i <= all.len(),
            slash@ == "/"@,
            text::views(all@) == names,
            kept == (|name: Seq<char>| !text::ends_with(name, "/"@)),
            text::views(r@) == names.take(i as int).filter(kept),
        decreases all.len() - i,
    {
        proof {
            reveal(Seq::filter);
            assert(names.take(i + 1).drop_last() =~= names.take(i as int));
            assert(names.take(i + 1).last() == all@[i as int]@);
        }
        let ghost before = text::views(r@);
        if !ends(chars_of(all[i].as_str()).as_slice(), slash.as_slice()) {
            r.push(all[i].clone());
            assert(text::views(r@) =~= before.push(all@[i as int]@));
        }
        i += 1;
    }
    assert(names.take(i as int) =~= names);
    Ok(r)
}

/// One member's bytes, or what went wrong with reading it.
pub fn tar_member(archive: &str, member: &str, out: ToolOutput) -> (r: Result<Vec<u8>, String>)
    ensures
        match r {
            Ok(bytes) => out.success && bytes == out.stdout,
            Err(m) => !out.success && m@ == "cannot read member "@ + member@ + " from "@ + archive@
                + (": "@ + complaint(out)),
        },
{
    if !out.success {
        return Err(
            cat5(
                "cannot read member ",
                member,
                " from ",
                archive,
                cat2(": ", complaint_of(&out).as_str()).as_str(),
            ),
        );
    }
    Ok(out.stdout)
}

} // verus!
