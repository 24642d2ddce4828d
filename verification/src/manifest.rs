//! The operator manifest, read line by line: the deployment's name stands on
//! a line of its own.

use vstd::prelude::*;
use vstd::slice::*;
use vstd::string::*;

use crate::text;
use crate::text::{begins, chars_of, every, lead_of, lines_of, text_of, trimmed, Class};

verus! {

/// The value of a line that is entirely `name: <token>`: leading white space
/// is allowed, and the token holds the characters of a manifest name.
pub open spec fn name_value(line: Seq<char>) -> Option<Seq<char>> {
    let rest = text::trim_start(line);
    let value = text::trim(rest.skip("name:"@.len() as int));
    if text::starts_with(rest, "name:"@) && value.len() > 0 && text::all_in(value, Class::Name) {
        Some(value)
    } else {
        None
    }
}

/// The value of the first name line.
pub open spec fn first_name(lines: Seq<Seq<char>>) -> Option<Seq<char>>
    decreases lines.len(),
{
    if lines.len() == 0 {
        None
    } else if name_value(lines[0]) is Some {
        name_value(lines[0])
    } else {
        first_name(lines.skip(1))
    }
}

/// The deployment name of a manifest.
pub open spec fn deployment_name(manifest: Seq<char>) -> Seq<char> {
    match first_name(text::lines(manifest)) {
        Some(name) => name,
        None => "deployment"@,
    }
}

/// The value of a line that is entirely `name: <token>` (leading whitespace
/// allowed, the token limited to manifest-name characters), or nothing.
pub fn name_line_value(line: &str) -> (r: Option<String>)
    ensures
        match r {
            Some(name) => name_value(line@) == Some(name@),
            None => name_value(line@) is None,
        },
{
    let chars = chars_of(line);
    let all = chars.as_slice();
    let ws = lead_of(all, &Class::Space);
    let rest = slice_subrange(all, ws, all.len());
    assert(rest@ =~= text::trim_start(line@));
    let key = chars_of("name:");
    if !begins(rest, key.as_slice()) {
        return None;
    }
    let after = slice_subrange(rest, key.len(), rest.len());
    assert(after@ =~= rest@.skip("name:"@.len() as int));
    let value = trimmed(after);
    if value.len() == 0 || !every(value, &Class::Name) {
        return None;
    }
    Some(text_of(value))
}

/// The deployment name from a manifest's text, or the fallback where no
/// `name:` line is present.
pub fn manifest_name(manifest: &str) -> (r: String)
    ensures
        r@ == deployment_name(manifest@),
{
    let lines = lines_of(chars_of(manifest).as_slice());
    let ghost all = text::lines(manifest@);
    let mut i: usize = 0;
    assert(all.skip(0) =~= all);
    while i < lines.len()
        invariant
            i <= lines.len(),
            text::views(lines@) == all,
            all == text::lines(manifest@),
            first_name(all.skip(i as int)) == first_name(all),
        decreases lines.len() - i,
    {
        assert(all.skip(i as int)[0] == lines@[i as int]@);
        assert(all.skip(i as int).skip(1) =~= all.skip(i + 1));
        if let Some(name) = name_line_value(lines[i].as_str()) {
            return name;
        }
        i += 1;
    }
    "deployment".to_string()
}

} // verus!
