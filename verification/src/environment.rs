//! Rendered environments: the `NAME=value` lines that a service is launched
//! with.

use vstd::prelude::*;
use vstd::string::*;

use crate::text;
use crate::text::{chars_of, cut, lines_of};

verus! {

/// Names and values as mathematics.
pub open spec fn pair_views(list: Seq<(String, String)>) -> Seq<(Seq<char>, Seq<char>)> {
    list.map_values(|p: (String, String)| (p.0@, p.1@))
}

/// The names and values of the lines that have an equals sign, in their
/// order.
pub open spec fn assignments(lines: Seq<Seq<char>>) -> Seq<(Seq<char>, Seq<char>)>
    decreases lines.len(),
{
    if lines.len() == 0 {
        Seq::empty()
    } else {
        let before = assignments(lines.drop_last());
        match text::split_once(lines.last(), '=') {
            Some(pair) => before.push(pair),
            None => before,
        }
    }
}

/// The names and values that a rendered environment holds.
pub open spec fn environment(rendered: Seq<char>) -> Seq<(Seq<char>, Seq<char>)> {
    assignments(text::lines(rendered))
}

/// The names and values that a rendered environment holds.
pub fn environment_of(rendered: &str) -> (r: Vec<(String, String)>)
    ensures
        pair_views(r@) == environment(rendered@),
{
    let lines = lines_of(chars_of(rendered).as_slice());
    let ghost all = text::lines(rendered@);
    let mut out: Vec<(String, String)> = Vec::new();
    let mut i: usize = 0;
    assert(all.take(0) =~= Seq::<Seq<char>>::empty());
    assert(pair_views(out@) =~= Seq::<(Seq<char>, Seq<char>)>::empty());
    while i < lines.len()
        invariant
            i <= lines.len(),
            text::views(lines@) == all,
            pair_views(out@) == assignments(all.take(i as int)),
        decreases lines.len() - i,
    {
        let ghost before = pair_views(out@);
        assert(all.take(i + 1).drop_last() =~= all.take(i as int));
        assert(all.take(i + 1).last() == lines@[i as int]@);
        if let Some((name, value)) = cut(chars_of(lines[i].as_str()).as_slice(), '=') {
            let ghost pair = (name@, value@);
            out.push((name, value));
            assert(pair_views(out@) =~= before.push(pair));
        }
        i += 1;
    }
    assert(all.take(i as int) =~= all);
    out
}

/// The list with one more name and value.
pub fn push_pair(list: &mut Vec<(String, String)>, name: &str, value: &str)
    ensures
        pair_views(final(list)@) == pair_views(old(list)@).push((name@, value@)),
{
    let ghost before = pair_views(list@);
    list.push((name.to_string(), value.to_string()));
    assert(pair_views(list@) =~= before.push((name@, value@)));
}

/// The list with more names and values.
pub fn push_pairs(list: &mut Vec<(String, String)>, more: &Vec<(String, String)>)
    ensures
        pair_views(final(list)@) == pair_views(old(list)@) + pair_views(more@),
{
    let ghost before = pair_views(list@);
    let ghost all = pair_views(more@);
    let mut i: usize = 0;
    assert(before + all.take(0) =~= before);
    while i < more.len()
        invariant
            i <= more.len(),
            all == pair_views(more@),
            pair_views(list@) == before + all.take(i as int),
        decreases more.len() - i,
    {
        push_pair(list, more[i].0.as_str(), more[i].1.as_str());
        assert(all.take(i + 1) =~= all.take(i as int).push(all[i as int]));
        i += 1;
    }
    assert(all.take(i as int) =~= all);
}

} // verus!
