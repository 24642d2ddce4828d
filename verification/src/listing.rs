//! Directories: what a walk through one finds, and which archive in one is
//! the newest.

use vstd::prelude::*;
use vstd::relations::*;
use vstd::seq_lib::*;
use vstd::slice::*;
use vstd::string::*;

use crate::calendar;
use crate::order;
use crate::order::not_after_text;
use crate::text;
use crate::text::{begins, cat3, chars_of, ends, same_text, text_of, Class};

verus! {

/// An entry of a directory as mathematics.
pub struct TreeView {
    pub name: Seq<char>,
    pub below: Option<Seq<TreeView>>,
}

/// An entry of a directory: a directory with what is below it, or a file.
pub struct Tree {
    pub name: String,
    pub below: Option<Vec<Tree>>,
}

impl Tree {
    /// The entry as mathematics.
    pub open spec fn model(self) -> TreeView
        decreases self,
    {
        TreeView {
            name: self.name@,
            below: match self.below {
                Some(entries) => Some(Tree::models(entries@)),
                None => None,
            },
        }
    }

    /// The entries of a directory as mathematics.
    pub open spec fn models(entries: Seq<Tree>) -> Seq<TreeView>
        decreases entries,
    {
        if entries.len() == 0 {
            Seq::empty()
        } else {
            Tree::models(entries.drop_last()).push(entries.last().model())
        }
    }
}

impl View for Tree {
    type V = TreeView;

    open spec fn view(&self) -> TreeView {
        self.model()
    }
}

/// A list that is ordered by name, with one more item in its place.
pub open spec fn placed<T>(list: Seq<(Seq<char>, T)>, item: (Seq<char>, T)) -> Seq<(Seq<char>, T)>
    decreases list.len(),
{
    if list.len() == 0 || order::le(list.last().0, item.0) {
        list.push(item)
    } else {
        placed(list.drop_last(), item).push(list.last())
    }
}

/// What each entry of a directory contributes, in the order of the names.
pub open spec fn blocks(entries: Seq<TreeView>, p: spec_fn(Seq<char>) -> bool) -> Seq<
    (Seq<char>, Seq<Seq<char>>),
>
    decreases entries, 0int,
{
    if entries.len() == 0 {
        Seq::empty()
    } else {
        placed(
            blocks(entries.drop_last(), p),
            (entries.last().name, found_at(entries.last(), p)),
        )
    }
}

/// The files at an entry whose names match: itself, or those below it.
pub open spec fn found_at(entry: TreeView, p: spec_fn(Seq<char>) -> bool) -> Seq<Seq<char>>
    decreases entry, 0int,
{
    match entry.below {
        Some(entries) => walk(entries, p).map_values(
            |path: Seq<char>| entry.name + "/"@ + path,
        ),
        None => if p(entry.name) {
            seq![entry.name]
        } else {
            seq![]
        },
    }
}

/// The files of a directory whose names match, by their relative paths:
/// the entries of every directory in the order of their names.
pub open spec fn walk(entries: Seq<TreeView>, p: spec_fn(Seq<char>) -> bool) -> Seq<Seq<char>>
    decreases entries, 1int,
{
    gathered(blocks(entries, p))
}

/// The lists one after the other.
pub open spec fn gathered(list: Seq<(Seq<char>, Seq<Seq<char>>)>) -> Seq<Seq<char>>
    decreases list.len(),
{
    if list.len() == 0 {
        Seq::empty()
    } else {
        gathered(list.drop_last()) + list.last().1
    }
}

/// What the function says of a name is what `p` says of it.
pub open spec fn says<F: Fn(&str) -> bool>(f: F, p: spec_fn(Seq<char>) -> bool) -> bool {
    forall|name: &str, r: bool| #[trigger] call_ensures(f, (name,), r) ==> r == p(name@)
}

spec fn block_views(list: Seq<(String, Vec<String>)>) -> Seq<(Seq<char>, Seq<Seq<char>>)> {
    list.map_values(|b: (String, Vec<String>)| (b.0@, text::views(b.1@)))
}

/// One more block in its place.
fn place_block(list: &mut Vec<(String, Vec<String>)>, item: (String, Vec<String>))
    ensures
        block_views(final(list)@) == placed(
            block_views(old(list)@),
            (item.0@, text::views(item.1@)),
        ),
{
    let ghost whole = block_views(list@);
    let ghost it = (item.0@, text::views(item.1@));
    let mut i: usize = list.len();
    assert(whole.take(i as int) =~= whole);
    assert(whole.skip(i as int) =~= Seq::empty());
    assert(placed(whole, it) =~= placed(whole, it) + whole.skip(i as int));
    while i > 0 && !not_after_text(list[i - 1].0.as_str(), item.0.as_str())
        invariant
            i <= list.len(),
            whole == block_views(list@),
            it.0 == item.0@,
            placed(whole, it) == placed(whole.take(i as int), it) + whole.skip(i as int),
        decreases i,
    {
        assert(whole.take(i as int).drop_last() =~= whole.take(i - 1));
        assert(whole.take(i as int).last() == whole[i - 1]);
        assert(whole.skip(i - 1) =~= seq![whole[i - 1]] + whole.skip(i as int));
        assert(placed(whole, it) =~= placed(whole.take(i - 1), it) + whole.skip(i - 1));
        i -= 1;
    }
    assert(i > 0 ==> whole.take(i as int).last() == whole[i - 1]);
    list.insert(i, item);
    assert(block_views(list@) =~= whole.take(i as int).push(it) + whole.skip(i as int));
}

fn find_blocks<F: Fn(&str) -> bool + Copy>(entries: &Vec<Tree>, f: F) -> (r: Vec<
    (String, Vec<String>),
>)
    requires
        forall|name: &str| call_requires(f, (name,)),
    ensures
        forall|p: spec_fn(Seq<char>) -> bool|
            says(f, p) ==> block_views(r@) == #[trigger] blocks(Tree::models(entries@), p),
    decreases entries@,
{
    let mut out: Vec<(String, Vec<String>)> = Vec::new();
    let mut i: usize = 0;
    assert(entries@.take(0) =~= Seq::<Tree>::empty());
    assert(block_views(out@) =~= Seq::empty());
    while i < entries.len()
        invariant
            i <= entries.len(),
            forall|name: &str| call_requires(f, (name,)),
            forall|p: spec_fn(Seq<char>) -> bool|
                says(f, p) ==> block_views(out@) == #[trigger] blocks(
                    Tree::models(entries@.take(i as int)),
                    p,
                ),
        decreases entries.len() - i,
    {
        let ghost before = block_views(out@);
        let entry = &entries[i];
        assert(decreases_to!(entries@ => entries@[i as int]));
        let found = find_at(entry, f);
        let ghost got = text::views(found@);
        place_block(&mut out, (entry.name.clone(), found));
        proof {
            assert(entries@.take(i + 1).drop_last() =~= entries@.take(i as int));
            assert(entries@.take(i + 1).last() == entry);
            let done = Tree::models(entries@.take(i as int));
            let next = Tree::models(entries@.take(i + 1));
            assert(next == done.push(entry.model()));
            assert(next.drop_last() =~= done);
            assert forall|p: spec_fn(Seq<char>) -> bool| says(f, p) implies block_views(out@)
                == #[trigger] blocks(next, p) by {
                assert(before == blocks(done, p));
                assert(got == found_at(entry@, p));
            }
        }
        i += 1;
    }
    assert(entries@.take(i as int) =~= entries@);
    out
}

fn find_at<F: Fn(&str) -> bool + Copy>(entry: &Tree, f: F) -> (r: Vec<String>)
    requires
        forall|name: &str| call_requires(f, (name,)),
    ensures
        forall|p: spec_fn(Seq<char>) -> bool|
            says(f, p) ==> text::views(r@) == #[trigger] found_at(entry@, p),
    decreases entry,
{
    match &entry.below {
        Some(entries) => {
            assert(decreases_to!(*entry => entry.below));
            assert(decreases_to!(entry.below => entry.below->0));
            let list = find_blocks(entries, f);
            let found = gather(&list);
            let mut out: Vec<String> = Vec::new();
            let mut i: usize = 0;
            while i < found.len()
                invariant
                    i <= found.len(),
                    out@.len() == i,
                    forall|k: int|
                        0 <= k < i ==> (#[trigger] out@[k])@ == entry.name@ + "/"@ + found@[k]@,
                decreases found.len() - i,
            {
                out.push(cat3(entry.name.as_str(), "/", found[i].as_str()));
                i += 1;
            }
            proof {
                assert forall|p: spec_fn(Seq<char>) -> bool| says(f, p) implies text::views(out@)
                    == #[trigger] found_at(entry@, p) by {
                    assert(block_views(list@) == blocks(Tree::models(entries@), p));
                    assert(text::views(out@) =~= found_at(entry@, p));
                }
            }
            out
        },
        None => {
            let name = entry.name.as_str();
            let mut out: Vec<String> = Vec::new();
            assert(text::views(out@) =~= Seq::<Seq<char>>::empty());
            let matching = f(name);
            if matching {
                out.push(entry.name.clone());
                assert(text::views(out@) =~= seq![entry.name@]);
            }
            out
        },
    }
}

fn gather(list: &Vec<(String, Vec<String>)>) -> (r: Vec<String>)
    ensures
        text::views(r@) == gathered(block_views(list@)),
{
    let ghost all = block_views(list@);
    let mut out: Vec<String> = Vec::new();
    let mut i: usize = 0;
    assert(all.take(0) =~= Seq::empty());
    assert(text::views(out@) =~= Seq::<Seq<char>>::empty());
    while i < list.len()
        invariant
            i <= list.len(),
            all == block_views(list@),
            text::views(out@) == gathered(all.take(i as int)),
        decreases list.len() - i,
    {
        let part = &list[i].1;
        let ghost before = text::views(out@);
        let mut j: usize = 0;
        assert(before + text::views(part@).take(0) =~= before);
        while j < part.len()
            invariant
                j <= part.len(),
                text::views(out@) == before + text::views(part@).take(j as int),
            decreases part.len() - j,
        {
            let ghost sofar = text::views(out@);
            out.push(part[j].clone());
            assert(text::views(out@) =~= sofar.push(part@[j as int]@));
            assert(text::views(part@).take(j + 1) =~= text::views(part@).take(j as int).push(
                part@[j as int]@,
            ));
            j += 1;
        }
        assert(text::views(part@).take(j as int) =~= text::views(part@));
        assert(all.take(i + 1).drop_last() =~= all.take(i as int));
        assert(all.take(i + 1).last() == all[i as int]);
        i += 1;
    }
    assert(all.take(i as int) =~= all);
    out
}

/// The paths below a directory whose names match the predicate, sorted so
/// that the result is deterministic.
pub fn walk_matching<F: Fn(&str) -> bool + Copy>(entries: &Vec<Tree>, predicate: F) -> (r: Vec<
    String,
>)
    requires
        forall|name: &str| call_requires(predicate, (name,)),
    ensures
        forall|p: spec_fn(Seq<char>) -> bool|
            says(predicate, p) ==> text::views(r@) == #[trigger] walk(Tree::models(entries@), p),
{
    let list = find_blocks(entries, predicate);
    let out = gather(&list);
    proof {
        assert forall|p: spec_fn(Seq<char>) -> bool| says(predicate, p) implies text::views(out@)
            == #[trigger] walk(Tree::models(entries@), p) by {
            assert(block_views(list@) == blocks(Tree::models(entries@), p));
        }
    }
    out
}

// ---------------------------------------------------------------------------
// The order of a walk.
// ---------------------------------------------------------------------------

/// A path comes before another one, component by component: where the first
/// components are the same the rest decides, and a path comes before those
/// below it.
pub open spec fn comes_before(a: Seq<char>, b: Seq<char>) -> bool
    decreases a.len(),
{
    let m = text::lead(a, Class::Except('/'));
    let n = text::lead(b, Class::Except('/'));
    if a.take(m) != b.take(n) {
        order::le(a.take(m), b.take(n))
    } else if m < a.len() && n < b.len() {
        proof {
            text::lemma_lead(a, Class::Except('/'));
        }
        comes_before(a.skip(m + 1), b.skip(n + 1))
    } else {
        m == a.len() && n < b.len()
    }
}

/// In every directory the names are components, and no two are the same.
pub open spec fn is_proper(entries: Seq<TreeView>) -> bool
    decreases entries,
{
    entries.len() > 0 ==> {
        &&& is_proper(entries.drop_last())
        &&& is_proper_entry(entries.last())
        &&& forall|i: int|
            0 <= i < entries.len() - 1 ==> (#[trigger] entries[i]).name != entries.last().name
    }
}

/// The name is a component, and so are those below it.
pub open spec fn is_proper_entry(entry: TreeView) -> bool
    decreases entry,
{
    text::all_in(entry.name, Class::Except('/')) && match entry.below {
        Some(entries) => is_proper(entries),
        None => true,
    }
}

/// The paths ascend, and none occurs twice.
spec fn ascend(paths: Seq<Seq<char>>) -> bool {
    forall|i: int, j: int|
        0 <= i < j < paths.len() ==> comes_before(#[trigger] paths[i], #[trigger] paths[j])
}

/// The path begins with the component.
spec fn begins_at(path: Seq<char>, name: Seq<char>) -> bool {
    path.take(text::lead(path, Class::Except('/'))) == name
}

/// What an entry contributes begins with its name and ascends.
spec fn is_sound_block(block: (Seq<char>, Seq<Seq<char>>)) -> bool {
    &&& ascend(block.1)
    &&& forall|k: int| 0 <= k < block.1.len() ==> begins_at(#[trigger] block.1[k], block.0)
}

/// The blocks stand in the order of their names, and no two have one name.
spec fn are_sound_blocks(list: Seq<(Seq<char>, Seq<Seq<char>>)>) -> bool {
    &&& forall|k: int| 0 <= k < list.len() ==> is_sound_block(#[trigger] list[k])
    &&& forall|i: int, j: int|
        0 <= i < j < list.len() ==> order::le((#[trigger] list[i]).0, (#[trigger] list[j]).0)
            && list[i].0 != list[j].0
}

proof fn lemma_placed_soundly(
    list: Seq<(Seq<char>, Seq<Seq<char>>)>,
    item: (Seq<char>, Seq<Seq<char>>),
)
    requires
        are_sound_blocks(list),
        is_sound_block(item),
        forall|k: int| 0 <= k < list.len() ==> (#[trigger] list[k]).0 != item.0,
    ensures
        are_sound_blocks(placed(list, item)),
        forall|k: int|
            0 <= k < placed(list, item).len() ==> #[trigger] placed(list, item)[k] == item
                || list.contains(placed(list, item)[k]),
    decreases list.len(),
{
    order::lemma_dictionary_is_total();
    let d = order::dictionary();
    let out = placed(list, item);
    if list.len() == 0 {
    } else if order::le(list.last().0, item.0) {
        assert forall|i: int, j: int| 0 <= i < j < out.len() implies order::le(
            (#[trigger] out[i]).0,
            (#[trigger] out[j]).0,
        ) && out[i].0 != out[j].0 by {
            if j == list.len() {
                assert(out[i] == list[i]);
                assert(d(list.last().0, item.0));
                if i < list.len() - 1 {
                    assert(order::le(list[i].0, list[list.len() - 1].0));
                    assert(d(list[i].0, list.last().0));
                }
            } else {
                assert(out[i] == list[i] && out[j] == list[j]);
            }
        }
        assert forall|k: int| 0 <= k < out.len() implies #[trigger] out[k] == item
            || list.contains(out[k]) by {
            if k < list.len() {
                assert(out[k] == list[k]);
            }
        }
    } else {
        let rest = list.drop_last();
        let last = list.last();
        assert forall|k: int| 0 <= k < rest.len() implies (#[trigger] rest[k]).0 != item.0
            && is_sound_block(rest[k]) by {
            assert(rest[k] == list[k]);
        }
        lemma_placed_soundly(rest, item);
        let front = placed(rest, item);
        assert(d(item.0, last.0) || d(last.0, item.0));
        assert(last == list[list.len() - 1]);
        assert forall|i: int, j: int| 0 <= i < j < out.len() implies order::le(
            (#[trigger] out[i]).0,
            (#[trigger] out[j]).0,
        ) && out[i].0 != out[j].0 by {
            if j == front.len() {
                assert(out[i] == front[i]);
                if front[i] != item {
                    let k = choose|k: int| 0 <= k < rest.len() && rest[k] == front[i];
                    assert(order::le(list[k].0, list[list.len() - 1].0));
                }
            } else {
                assert(out[i] == front[i] && out[j] == front[j]);
            }
        }
        assert forall|k: int| 0 <= k < out.len() implies is_sound_block(#[trigger] out[k]) && (
        out[k] == item || list.contains(out[k])) by {
            if k < front.len() {
                assert(out[k] == front[k]);
                if front[k] != item {
                    let m = choose|m: int| 0 <= m < rest.len() && rest[m] == front[k];
                    assert(list[m] == out[k]);
                }
            }
        }
    }
}

proof fn lemma_gathered_ascend(list: Seq<(Seq<char>, Seq<Seq<char>>)>)
    requires
        are_sound_blocks(list),
    ensures
        ascend(gathered(list)),
        forall|k: int|
            0 <= k < gathered(list).len() ==> exists|m: int|
                0 <= m < list.len() && begins_at(#[trigger] gathered(list)[k], (#[trigger] list[m]).0),
    decreases list.len(),
{
    if list.len() > 0 {
        let rest = list.drop_last();
        let last = list.last();
        assert(last == list[list.len() - 1]);
        assert forall|k: int| 0 <= k < rest.len() implies is_sound_block(#[trigger] rest[k]) by {
            assert(rest[k] == list[k]);
        }
        lemma_gathered_ascend(rest);
        let front = gathered(rest);
        let all = gathered(list);
        assert forall|k: int| 0 <= k < all.len() implies exists|m: int|
            0 <= m < list.len() && begins_at(#[trigger] all[k], (#[trigger] list[m]).0) by {
            if k < front.len() {
                assert(all[k] == front[k]);
                let m = choose|m: int|
                    0 <= m < rest.len() && begins_at(front[k], (#[trigger] rest[m]).0);
                assert(list[m] == rest[m]);
            } else {
                assert(all[k] == last.1[k - front.len()]);
                assert(begins_at(all[k], list[list.len() - 1].0));
            }
        }
        assert forall|i: int, j: int| 0 <= i < j < all.len() implies comes_before(
            #[trigger] all[i],
            #[trigger] all[j],
        ) by {
            if j < front.len() {
                assert(all[i] == front[i] && all[j] == front[j]);
            } else if i >= front.len() {
                assert(all[i] == last.1[i - front.len()]);
                assert(all[j] == last.1[j - front.len()]);
            } else {
                assert(all[i] == front[i]);
                assert(all[j] == last.1[j - front.len()]);
                let m = choose|m: int|
                    0 <= m < rest.len() && begins_at(front[i], (#[trigger] rest[m]).0);
                assert(list[m] == rest[m]);
                assert(order::le(list[m].0, list[list.len() - 1].0));
            }
        }
    }
}

/// A directory's name before two paths does not change their order.
proof fn lemma_below_name(name: Seq<char>, a: Seq<char>, b: Seq<char>)
    requires
        text::all_in(name, Class::Except('/')),
    ensures
        comes_before(name + "/"@ + a, name + "/"@ + b) == comes_before(a, b),
        begins_at(name + "/"@ + a, name),
{
    reveal_strlit("/");
    let x = name + "/"@ + a;
    let y = name + "/"@ + b;
    let n = name.len() as int;
    assert(x[n] == '/' && y[n] == '/');
    text::lemma_lead_is(x, Class::Except('/'), n);
    text::lemma_lead_is(y, Class::Except('/'), n);
    assert(x.take(n) =~= name);
    assert(y.take(n) =~= name);
    assert(x.skip(n + 1) =~= a);
    assert(y.skip(n + 1) =~= b);
}

proof fn lemma_found_soundly(entry: TreeView, p: spec_fn(Seq<char>) -> bool)
    requires
        is_proper_entry(entry),
    ensures
        is_sound_block((entry.name, found_at(entry, p))),
    decreases entry, 0int,
{
    let found = found_at(entry, p);
    match entry.below {
        Some(entries) => {
            lemma_blocks_soundly(entries, p);
            lemma_gathered_ascend(blocks(entries, p));
            let inner = walk(entries, p);
            assert forall|i: int, j: int| 0 <= i < j < found.len() implies comes_before(
                #[trigger] found[i],
                #[trigger] found[j],
            ) by {
                assert(comes_before(inner[i], inner[j]));
                lemma_below_name(entry.name, inner[i], inner[j]);
            }
            assert forall|k: int| 0 <= k < found.len() implies begins_at(
                #[trigger] found[k],
                entry.name,
            ) by {
                lemma_below_name(entry.name, inner[k], inner[k]);
            }
        },
        None => {
            let n = entry.name.len() as int;
            text::lemma_lead_is(entry.name, Class::Except('/'), n);
            assert(entry.name.take(n) =~= entry.name);
        },
    }
}

proof fn lemma_blocks_soundly(entries: Seq<TreeView>, p: spec_fn(Seq<char>) -> bool)
    requires
        is_proper(entries),
    ensures
        are_sound_blocks(blocks(entries, p)),
        forall|k: int|
            0 <= k < blocks(entries, p).len() ==> exists|i: int|
                0 <= i < entries.len() && (#[trigger] entries[i]).name == (#[trigger] blocks(
                    entries,
                    p,
                )[k]).0,
    decreases entries, 0int,
{
    if entries.len() > 0 {
        let rest = entries.drop_last();
        let last = entries.last();
        lemma_blocks_soundly(rest, p);
        lemma_found_soundly(last, p);
        let front = blocks(rest, p);
        let item = (last.name, found_at(last, p));
        let out = blocks(entries, p);
        assert forall|k: int| 0 <= k < front.len() implies (#[trigger] front[k]).0 != item.0 by {
            let i = choose|i: int|
                0 <= i < rest.len() && (#[trigger] rest[i]).name == front[k].0;
            assert(entries[i] == rest[i]);
        }
        lemma_placed_soundly(front, item);
        assert forall|k: int| 0 <= k < out.len() implies exists|i: int|
            0 <= i < entries.len() && (#[trigger] entries[i]).name == (#[trigger] out[k]).0 by {
            if out[k] == item {
                assert(entries[entries.len() - 1].name == out[k].0);
            } else {
                let m = choose|m: int| 0 <= m < front.len() && front[m] == out[k];
                let i = choose|i: int|
                    0 <= i < rest.len() && (#[trigger] rest[i]).name == front[m].0;
                assert(entries[i].name == out[k].0);
            }
        }
    }
}

proof fn lemma_not_before_itself(a: Seq<char>)
    ensures
        !comes_before(a, a),
    decreases a.len(),
{
    text::lemma_lead(a, Class::Except('/'));
    let m = text::lead(a, Class::Except('/'));
    if m < a.len() {
        lemma_not_before_itself(a.skip(m + 1));
    }
}

/// A walk is deterministic: where no directory holds a name twice, the paths
/// ascend component by component and none occurs twice.
pub proof fn law_walks_ascend(entries: Seq<TreeView>, p: spec_fn(Seq<char>) -> bool)
    requires
        is_proper(entries),
    ensures
        forall|i: int, j: int|
            0 <= i < j < walk(entries, p).len() ==> comes_before(
                #[trigger] walk(entries, p)[i],
                #[trigger] walk(entries, p)[j],
            ),
        walk(entries, p).no_duplicates(),
{
    lemma_blocks_soundly(entries, p);
    lemma_gathered_ascend(blocks(entries, p));
    let found = walk(entries, p);
    assert forall|i: int, j: int|
        0 <= i < found.len() && 0 <= j < found.len() && i != j implies found[i] != found[j] by {
        lemma_not_before_itself(found[i]);
        if i < j {
            assert(comes_before(found[i], found[j]));
        } else {
            assert(comes_before(found[j], found[i]));
        }
    }
}

// ---------------------------------------------------------------------------
// What a walk finds.
// ---------------------------------------------------------------------------

/// The path leads through directories to a file with the name.
pub open spec fn leads_to(entries: Seq<TreeView>, path: Seq<char>, name: Seq<char>) -> bool
    decreases entries,
{
    entries.len() > 0 && (leads_to(entries.drop_last(), path, name) || leads_from(
        entries.last(),
        path,
        name,
    ))
}

/// The path leads from an entry to a file with the name.
pub open spec fn leads_from(entry: TreeView, path: Seq<char>, name: Seq<char>) -> bool
    decreases entry,
{
    match entry.below {
        Some(entries) => text::starts_with(path, entry.name + "/"@) && leads_to(
            entries,
            path.skip((entry.name + "/"@).len() as int),
            name,
        ),
        None => path == entry.name && name == entry.name,
    }
}

/// The lists together hold what one of them holds.
spec fn is_in_block(list: Seq<(Seq<char>, Seq<Seq<char>>)>, path: Seq<char>) -> bool {
    exists|k: int| 0 <= k < list.len() && (#[trigger] list[k]).1.contains(path)
}

proof fn lemma_in_gathered(list: Seq<(Seq<char>, Seq<Seq<char>>)>, path: Seq<char>)
    ensures
        gathered(list).contains(path) <==> is_in_block(list, path),
    decreases list.len(),
{
    if list.len() > 0 {
        let rest = list.drop_last();
        let last = list.last();
        lemma_in_gathered(rest, path);
        let front = gathered(rest);
        let all = gathered(list);
        if all.contains(path) {
            let i = choose|i: int| 0 <= i < all.len() && all[i] == path;
            if i < front.len() {
                assert(front[i] == path);
                let k = choose|k: int| 0 <= k < rest.len() && (#[trigger] rest[k]).1.contains(path);
                assert(list[k].1.contains(path));
            } else {
                assert(last.1[i - front.len()] == path);
                assert(list[list.len() - 1].1.contains(path));
            }
        }
        if is_in_block(list, path) {
            let k = choose|k: int| 0 <= k < list.len() && (#[trigger] list[k]).1.contains(path);
            if k < rest.len() {
                assert(rest[k].1.contains(path));
                let i = choose|i: int| 0 <= i < front.len() && front[i] == path;
                assert(all[i] == path);
            } else {
                let i = choose|i: int| 0 <= i < last.1.len() && last.1[i] == path;
                assert(all[front.len() + i] == path);
            }
        }
    }
}

proof fn lemma_in_placed(
    list: Seq<(Seq<char>, Seq<Seq<char>>)>,
    item: (Seq<char>, Seq<Seq<char>>),
    path: Seq<char>,
)
    ensures
        is_in_block(placed(list, item), path) <==> is_in_block(list, path) || item.1.contains(path),
    decreases list.len(),
{
    let out = placed(list, item);
    if list.len() == 0 || order::le(list.last().0, item.0) {
        assert(out[list.len() as int] == item);
        if is_in_block(out, path) {
            let k = choose|k: int| 0 <= k < out.len() && (#[trigger] out[k]).1.contains(path);
            if k < list.len() {
                assert(list[k].1.contains(path));
            }
        }
        if is_in_block(list, path) {
            let k = choose|k: int| 0 <= k < list.len() && (#[trigger] list[k]).1.contains(path);
            assert(out[k].1.contains(path));
        }
    } else {
        let rest = list.drop_last();
        let front = placed(rest, item);
        lemma_in_placed(rest, item, path);
        assert(out[front.len() as int] == list.last());
        assert(list[list.len() - 1] == list.last());
        if is_in_block(out, path) {
            let k = choose|k: int| 0 <= k < out.len() && (#[trigger] out[k]).1.contains(path);
            if k < front.len() {
                assert(front[k].1.contains(path));
                if is_in_block(rest, path) {
                    let m = choose|m: int|
                        0 <= m < rest.len() && (#[trigger] rest[m]).1.contains(path);
                    assert(list[m].1.contains(path));
                }
            } else {
                assert(list[list.len() - 1].1.contains(path));
            }
        }
        if is_in_block(list, path) || item.1.contains(path) {
            if is_in_block(list, path) {
                let m = choose|m: int| 0 <= m < list.len() && (#[trigger] list[m]).1.contains(path);
                if m < rest.len() {
                    assert(rest[m].1.contains(path));
                } else {
                    assert(out[front.len() as int].1.contains(path));
                }
            }
            if is_in_block(front, path) {
                let k = choose|k: int| 0 <= k < front.len() && (#[trigger] front[k]).1.contains(path);
                assert(out[k].1.contains(path));
            }
        }
    }
}

proof fn lemma_found(entry: TreeView, p: spec_fn(Seq<char>) -> bool, path: Seq<char>)
    ensures
        found_at(entry, p).contains(path) <==> exists|name: Seq<char>| #[trigger]
            leads_from(entry, path, name) && p(name),
    decreases entry, 0int,
{
    let found = found_at(entry, p);
    match entry.below {
        Some(entries) => {
            let head = entry.name + "/"@;
            let rest = path.skip(head.len() as int);
            let inner = walk(entries, p);
            lemma_walked(entries, p, rest);
            if found.contains(path) {
                let i = choose|i: int| 0 <= i < found.len() && found[i] == path;
                assert(path == head + inner[i]);
                assert(path.take(head.len() as int) =~= head);
                assert(rest =~= inner[i]);
                assert(inner.contains(rest));
                let name = choose|name: Seq<char>| #[trigger]
                    leads_to(entries, rest, name) && p(name);
                assert(leads_from(entry, path, name));
            }
            if exists|name: Seq<char>| #[trigger] leads_from(entry, path, name) && p(name) {
                let name = choose|name: Seq<char>| #[trigger]
                    leads_from(entry, path, name) && p(name);
                assert(leads_to(entries, rest, name));
                let i = choose|i: int| 0 <= i < inner.len() && inner[i] == rest;
                assert(path =~= head + rest);
                assert(found[i] == path);
            }
        },
        None => {
            if p(entry.name) {
                assert(found[0] == entry.name);
                assert(leads_from(entry, entry.name, entry.name));
            }
        },
    }
}

proof fn lemma_walked(entries: Seq<TreeView>, p: spec_fn(Seq<char>) -> bool, path: Seq<char>)
    ensures
        walk(entries, p).contains(path) <==> exists|name: Seq<char>| #[trigger]
            leads_to(entries, path, name) && p(name),
    decreases entries, 0int,
{
    lemma_in_gathered(blocks(entries, p), path);
    if entries.len() == 0 {
    } else {
        let rest = entries.drop_last();
        let last = entries.last();
        lemma_walked(rest, p, path);
        lemma_found(last, p, path);
        lemma_in_gathered(blocks(rest, p), path);
        lemma_in_placed(blocks(rest, p), (last.name, found_at(last, p)), path);
        if walk(entries, p).contains(path) {
            if walk(rest, p).contains(path) {
                let name = choose|name: Seq<char>| #[trigger] leads_to(rest, path, name) && p(name);
                assert(leads_to(entries, path, name));
            } else {
                let name = choose|name: Seq<char>| #[trigger]
                    leads_from(last, path, name) && p(name);
                assert(leads_to(entries, path, name));
            }
        }
        if exists|name: Seq<char>| #[trigger] leads_to(entries, path, name) && p(name) {
            let name = choose|name: Seq<char>| #[trigger] leads_to(entries, path, name) && p(name);
            if leads_to(rest, path, name) {
                assert(walk(rest, p).contains(path));
            } else {
                assert(leads_from(last, path, name));
            }
        }
    }
}

/// A walk finds every file whose name matches, however deep it lies, and
/// nothing else.
pub proof fn law_walks_find_every_match(
    entries: Seq<TreeView>,
    p: spec_fn(Seq<char>) -> bool,
    path: Seq<char>,
)
    ensures
        walk(entries, p).contains(path) <==> exists|name: Seq<char>| #[trigger]
            leads_to(entries, path, name) && p(name),
{
    lemma_walked(entries, p, path);
}

/// A path ends with the name of the file that it leads to.
pub proof fn law_paths_end_with_their_names(
    entries: Seq<TreeView>,
    path: Seq<char>,
    name: Seq<char>,
)
    requires
        leads_to(entries, path, name),
    ensures
        text::ends_with(path, name),
    decreases entries, 0int,
{
    if leads_to(entries.drop_last(), path, name) {
        law_paths_end_with_their_names(entries.drop_last(), path, name);
    } else {
        let entry = entries.last();
        assert(leads_from(entry, path, name));
        match entry.below {
            Some(below) => {
                assert(decreases_to!(entries => entries[entries.len() - 1]));
                let n = (entry.name + "/"@).len() as int;
                let rest = path.skip(n);
                assert(leads_to(below, rest, name));
                law_paths_end_with_their_names(below, rest, name);
                assert(path.skip(path.len() - name.len()) =~= rest.skip(rest.len() - name.len()));
            },
            None => {
                assert(path.skip(0) =~= path);
            },
        }
    }
}

// ---------------------------------------------------------------------------
// Archives.
// ---------------------------------------------------------------------------

/// The name of an archive whose label begins with the prefix.
pub open spec fn labelled(prefix: Seq<char>) -> spec_fn(Seq<char>) -> bool {
    |name: Seq<char>| text::starts_with(name, prefix) && text::ends_with(name, ".tar.gz"@)
}

/// The name of an archive.
pub open spec fn is_archive() -> spec_fn(Seq<char>) -> bool {
    |name: Seq<char>| text::ends_with(name, ".tar.gz"@)
}

/// The stamp in the name of an archive: the characters before `.tar.gz`, as
/// many as a stamp has.
pub open spec fn stamp_of(name: Seq<char>) -> Seq<char> {
    let end = name.len() - ".tar.gz"@.len();
    name.subrange(
        if end < 16 {
            0
        } else {
            end - 16
        },
        end,
    )
}

/// The first archive was not taken after the second one; the names decide
/// between archives of one moment.
pub open spec fn not_later(a: Seq<char>, b: Seq<char>) -> bool {
    if stamp_of(a) == stamp_of(b) {
        order::le(a, b)
    } else {
        order::le(stamp_of(a), stamp_of(b))
    }
}

/// The order of the archives in time as a relation.
pub open spec fn chronology() -> spec_fn(Seq<char>, Seq<char>) -> bool {
    |a: Seq<char>, b: Seq<char>| not_later(a, b)
}

/// The archives among the names, the newest first.
pub open spec fn newest_first(names: Seq<Seq<char>>) -> Seq<Seq<char>> {
    names.filter(is_archive()).sort_by(chronology()).reverse()
}

/// The order of the archives in time is a total order.
proof fn lemma_chronology_is_total()
    ensures
        total_ordering(chronology()),
{
    order::lemma_dictionary_is_total();
    let d = order::dictionary();
    let r = chronology();
    assert forall|a: Seq<char>| #[trigger] r(a, a) by {
        assert(d(a, a));
    }
    assert forall|a: Seq<char>, b: Seq<char>| #[trigger] r(a, b) && #[trigger] r(b, a) implies a
        == b by {
        let x = stamp_of(a);
        let y = stamp_of(b);
        if x == y {
            assert(d(a, b) && d(b, a));
        } else {
            assert(d(x, y) && d(y, x));
        }
    }
    assert forall|a: Seq<char>, b: Seq<char>, c: Seq<char>| #[trigger]
        r(a, b) && #[trigger] r(b, c) implies r(a, c) by {
        let x = stamp_of(a);
        let y = stamp_of(b);
        let z = stamp_of(c);
        if x == y && y == z {
            assert(d(a, b) && d(b, c));
        } else if x != y && y != z {
            assert(d(x, y) && d(y, z));
            if x == z {
                assert(d(y, x));
            }
        }
    }
    assert forall|a: Seq<char>, b: Seq<char>| #[trigger] r(a, b) || #[trigger] r(b, a) by {
        assert(d(a, b) || d(b, a));
        assert(d(stamp_of(a), stamp_of(b)) || d(stamp_of(b), stamp_of(a)));
    }
}

/// Whether the first archive was not taken after the second one.
fn is_not_later(a: &str, b: &str) -> (r: bool)
    requires
        is_archive()(a@),
        is_archive()(b@),
    ensures
        r == not_later(a@, b@),
{
    let x = stamp_in(a);
    let y = stamp_in(b);
    if same_text(x.as_str(), y.as_str()) {
        not_after_text(a, b)
    } else {
        not_after_text(x.as_str(), y.as_str())
    }
}

/// The stamp in the name of an archive.
fn stamp_in(name: &str) -> (r: String)
    requires
        is_archive()(name@),
    ensures
        r@ == stamp_of(name@),
{
    let chars = chars_of(name);
    let total: usize = chars.len();
    proof {
        reveal_strlit(".tar.gz");
    }
    let end: usize = total - 7;
    let from: usize = if end < 16 {
        0
    } else {
        end - 16
    };
    let part = slice_subrange(chars.as_slice(), from, end);
    assert(part@ =~= stamp_of(name@));
    text_of(part)
}

/// A list read from its end holds the same.
proof fn lemma_reversed(s: Seq<Seq<char>>)
    ensures
        s.reverse().to_multiset() == s.to_multiset(),
    decreases s.len(),
{
    if s.len() == 0 {
        assert(s.reverse() =~= s);
    } else {
        let rest = s.drop_last();
        lemma_reversed(rest);
        assert(s =~= rest.push(s.last()));
        assert(s.reverse() =~= rest.reverse().insert(0, s.last()));
        to_multiset_insert(rest.reverse(), 0, s.last());
        to_multiset_build(rest, s.last());
    }
}

/// The newest archives come first: the archives among the names, each as
/// often as it stands there, and none before one with a later stamp.
pub proof fn law_newest_come_first(names: Seq<Seq<char>>)
    ensures
        newest_first(names).to_multiset() == names.filter(is_archive()).to_multiset(),
        forall|i: int, j: int|
            0 <= i < j < newest_first(names).len() ==> order::le(
                stamp_of(#[trigger] newest_first(names)[j]),
                stamp_of(#[trigger] newest_first(names)[i]),
            ),
        forall|i: int|
            0 <= i < newest_first(names).len() ==> is_archive()(#[trigger] newest_first(names)[i]),
{
    let kept = names.filter(is_archive());
    let ordered = kept.sort_by(chronology());
    let r = newest_first(names);
    lemma_chronology_is_total();
    kept.lemma_sort_by_ensures(chronology());
    lemma_reversed(ordered);
    order::lemma_dictionary_is_total();
    let n = r.len();
    assert forall|i: int, j: int| 0 <= i < j < n implies order::le(
        stamp_of(#[trigger] r[j]),
        stamp_of(#[trigger] r[i]),
    ) by {
        assert(r[i] == ordered[n - 1 - i] && r[j] == ordered[n - 1 - j]);
        assert(chronology()(ordered[n - 1 - j], ordered[n - 1 - i]));
        assert(order::dictionary()(stamp_of(r[i]), stamp_of(r[i])));
    }
    assert forall|i: int| 0 <= i < n implies is_archive()(#[trigger] r[i]) by {
        r.to_multiset_ensures();
        kept.to_multiset_ensures();
        assert(r.contains(r[i]));
        assert(r.to_multiset().count(r[i]) > 0);
        assert(kept.to_multiset().count(r[i]) > 0);
        let k = choose|k: int| 0 <= k < kept.len() && kept[k] == r[i];
        text::lemma_filtered(names, is_archive());
        assert(is_archive()(kept[k]));
    }
}

/// The archives among the names of a directory, newest first.
pub fn archives_newest_first(names: &Vec<String>) -> (r: Vec<String>)
    ensures
        text::views(r@) == newest_first(text::views(names@)),
        forall|i: int, j: int|
            0 <= i < j < r@.len() ==> order::le(
                stamp_of((#[trigger] r@[j])@),
                stamp_of((#[trigger] r@[i])@),
            ),
{
    let ghost all = text::views(names@);
    let ghost r = chronology();
    let suffix = chars_of(".tar.gz");
    let mut ordered: Vec<String> = Vec::new();
    let mut i: usize = 0;
    proof {
        lemma_chronology_is_total();
        reveal(Seq::filter);
        assert(all.take(0).filter(is_archive()) =~= Seq::<Seq<char>>::empty());
        assert(text::views(ordered@) =~= Seq::<Seq<char>>::empty());
    }
    while i < names.len()
        invariant
            i <= names.len(),
            suffix@ == ".tar.gz"@,
            r == chronology(),
            total_ordering(r),
            all == text::views(names@),
            sorted_by(text::views(ordered@), r),
            text::views(ordered@).to_multiset() == all.take(i as int).filter(
                is_archive(),
            ).to_multiset(),
            forall|k: int| 0 <= k < ordered@.len() ==> is_archive()((#[trigger] ordered@[k])@),
        decreases names.len() - i,
    {
        proof {
            reveal(Seq::filter);
            assert(all.take(i + 1).drop_last() =~= all.take(i as int));
            assert(all.take(i + 1).last() == names@[i as int]@);
        }
        let item = &names[i];
        let ghost before = text::views(ordered@);
        if ends(chars_of(item.as_str()).as_slice(), suffix.as_slice()) {
            let mut p: usize = 0;
            while p < ordered.len() && is_not_later(ordered[p].as_str(), item.as_str())
                invariant
                    p <= ordered.len(),
                    r == chronology(),
                    is_archive()(item@),
                    before == text::views(ordered@),
                    forall|k: int|
                        0 <= k < ordered@.len() ==> is_archive()((#[trigger] ordered@[k])@),
                    forall|k: int| 0 <= k < p ==> r(#[trigger] before[k], item@),
                decreases ordered.len() - p,
            {
                p += 1;
            }
            ordered.insert(p, item.clone());
            proof {
                assert(text::views(ordered@) =~= before.insert(p as int, item@));
                order::lemma_insert_sorted(before, p as int, item@, r);
                to_multiset_build(all.take(i as int).filter(is_archive()), item@);
            }
        }
        i += 1;
    }
    proof {
        assert(all.take(i as int) =~= all);
        let kept = all.filter(is_archive());
        kept.lemma_sort_by_ensures(r);
        lemma_sorted_unique(text::views(ordered@), kept.sort_by(r), r);
    }
    let mut out: Vec<String> = Vec::new();
    let mut j: usize = ordered.len();
    while j > 0
        invariant
            j <= ordered.len(),
            out@.len() == ordered.len() - j,
            forall|k: int|
                0 <= k < out@.len() ==> (#[trigger] out@[k])@ == ordered@[ordered.len() - 1 - k]@,
        decreases j,
    {
        j -= 1;
        out.push(ordered[j].clone());
    }
    proof {
        assert(text::views(out@) =~= text::views(ordered@).reverse());
        law_newest_come_first(all);
        assert forall|a: int, b: int| 0 <= a < b < out@.len() implies order::le(
            stamp_of((#[trigger] out@[b])@),
            stamp_of((#[trigger] out@[a])@),
        ) by {
            assert(newest_first(all)[a] == out@[a]@ && newest_first(all)[b] == out@[b]@);
        }
    }
    out
}

/// Whether a name is that of an archive with the label prefix.
fn is_labelled(name: &str, prefix: &str) -> (r: bool)
    ensures
        r == labelled(prefix@)(name@),
{
    let chars = chars_of(name);
    begins(chars.as_slice(), chars_of(prefix).as_slice()) && ends(
        chars.as_slice(),
        chars_of(".tar.gz").as_slice(),
    )
}

/// A name and when its file was last modified.
pub struct Dated {
    pub name: String,
    /// In nanoseconds from the beginning of 1970 on.
    pub modified: i128,
}

/// At `i` stands the first of the most lately modified archives with the
/// label prefix.
pub open spec fn is_newest(files: Seq<Dated>, prefix: Seq<char>, i: int) -> bool {
    &&& 0 <= i < files.len()
    &&& labelled(prefix)(files[i].name@)
    &&& forall|j: int|
        0 <= j < files.len() && labelled(prefix)((#[trigger] files[j]).name@)
            ==> files[j].modified < files[i].modified || (files[j].modified == files[i].modified && i
            <= j)
}

/// The newest archive carrying a label prefix, by modification time.
pub fn newest_by_mtime(files: &Vec<Dated>, prefix: &str) -> (r: Option<String>)
    ensures
        match r {
            Some(name) => exists|i: int| #[trigger]
                is_newest(files@, prefix@, i) && name@ == files@[i].name@,
            None => forall|i: int|
                0 <= i < files@.len() ==> !labelled(prefix@)((#[trigger] files@[i]).name@),
        },
{
    let mut best: Option<usize> = None;
    let mut i: usize = 0;
    while i < files.len()
        invariant
            i <= files.len(),
            match best {
                Some(b) => {
                    &&& b < i
                    &&& labelled(prefix@)(files@[b as int].name@)
                    &&& forall|j: int|
                        0 <= j < i && labelled(prefix@)((#[trigger] files@[j]).name@)
                            ==> files@[j].modified < files@[b as int].modified || (
                        files@[j].modified == files@[b as int].modified && b <= j)
                },
                None => forall|j: int|
                    0 <= j < i ==> !labelled(prefix@)((#[trigger] files@[j]).name@),
            },
        decreases files.len() - i,
    {
        if is_labelled(files[i].name.as_str(), prefix) {
            best = match best {
                Some(b) => if files[i].modified > files[b].modified {
                    Some(i)
                } else {
                    Some(b)
                },
                None => Some(i),
            };
        }
        i += 1;
    }
    match best {
        Some(b) => {
            assert(is_newest(files@, prefix@, b as int));
            Some(files[b].name.clone())
        },
        None => None,
    }
}

/// The name is the greatest of the archives with the label prefix.
pub open spec fn is_last(names: Seq<Seq<char>>, prefix: Seq<char>, name: Seq<char>) -> bool {
    &&& names.contains(name)
    &&& labelled(prefix)(name)
    &&& forall|i: int|
        0 <= i < names.len() && labelled(prefix)(#[trigger] names[i]) ==> order::le(names[i], name)
}

/// The newest archive carrying a label prefix, by name (the timestamp in the
/// label makes the name order the chronological order).
pub fn newest_by_name(names: &Vec<String>, prefix: &str) -> (r: Option<String>)
    ensures
        match r {
            Some(name) => is_last(text::views(names@), prefix@, name@),
            None => forall|i: int|
                0 <= i < names@.len() ==> !labelled(prefix@)(#[trigger] text::views(names@)[i]),
        },
{
    let ghost all = text::views(names@);
    let mut best: Option<usize> = None;
    let mut i: usize = 0;
    proof {
        order::lemma_dictionary_is_total();
    }
    while i < names.len()
        invariant
            i <= names.len(),
            all == text::views(names@),
            vstd::relations::total_ordering(order::dictionary()),
            match best {
                Some(b) => {
                    &&& b < i
                    &&& labelled(prefix@)(all[b as int])
                    &&& forall|j: int|
                        0 <= j < i && labelled(prefix@)(#[trigger] all[j]) ==> order::le(
                            all[j],
                            all[b as int],
                        )
                },
                None => forall|j: int| 0 <= j < i ==> !labelled(prefix@)(#[trigger] all[j]),
            },
        decreases names.len() - i,
    {
        let ghost d = order::dictionary();
        assert(all[i as int] == names@[i as int]@);
        if is_labelled(names[i].as_str(), prefix) {
            best = match best {
                Some(b) => {
                    assert(all[b as int] == names@[b as int]@);
                    if not_after_text(names[b].as_str(), names[i].as_str()) {
                        proof {
                            assert forall|j: int|
                                0 <= j < i + 1 && labelled(prefix@)(
                                    #[trigger] all[j],
                                ) implies order::le(all[j], all[i as int]) by {
                                assert(d(all[i as int], all[i as int]));
                                if j < i {
                                    assert(d(all[j], all[b as int]));
                                    assert(d(all[b as int], all[i as int]));
                                }
                            }
                        }
                        Some(i)
                    } else {
                        assert(d(all[i as int], all[b as int]) || d(all[b as int], all[i as int]));
                        Some(b)
                    }
                },
                None => {
                    assert(d(all[i as int], all[i as int]));
                    Some(i)
                },
            };
        }
        i += 1;
    }
    match best {
        Some(b) => {
            assert(all[b as int] == names@[b as int]@);
            assert(all.contains(all[b as int]));
            Some(names[b].clone())
        },
        None => None,
    }
}

/// The stamp decides, whatever the labels: of two archives, the one that was
/// taken later comes later in the order of time, up to the end of the year
/// 9999.
pub proof fn law_archives_sort_by_time(x: Seq<char>, y: Seq<char>, a: nat, b: nat)
    requires
        a < b,
        calendar::date_of((b / 86400) as int).0 <= 9999,
    ensures
        stamp_of(x + calendar::stamp(a) + ".tar.gz"@) == calendar::stamp(a),
        stamp_of(y + calendar::stamp(b) + ".tar.gz"@) == calendar::stamp(b),
        not_later(x + calendar::stamp(a) + ".tar.gz"@, y + calendar::stamp(b) + ".tar.gz"@),
        !not_later(y + calendar::stamp(b) + ".tar.gz"@, x + calendar::stamp(a) + ".tar.gz"@),
{
    reveal_strlit(".tar.gz");
    let s = calendar::stamp(a);
    let t = calendar::stamp(b);
    calendar::law_stamps_sort_by_time(a, b);
    assert(stamp_of(x + s + ".tar.gz"@) =~= s);
    assert(stamp_of(y + t + ".tar.gz"@) =~= t);
    order::lemma_dictionary_is_total();
    assert(order::dictionary()(s, t));
    if order::le(t, s) {
        assert(order::dictionary()(t, s));
    }
}

/// The name order of archives is the chronological order: of two archives
/// with one label, the one that was taken later has the greater name, up to
/// the end of the year 9999.
pub proof fn law_names_sort_by_time(label: Seq<char>, a: nat, b: nat)
    requires
        a < b,
        calendar::date_of((b / 86400) as int).0 <= 9999,
    ensures
        order::le(
            label + calendar::stamp(a) + ".tar.gz"@,
            label + calendar::stamp(b) + ".tar.gz"@,
        ),
        label + calendar::stamp(a) + ".tar.gz"@ != label + calendar::stamp(b) + ".tar.gz"@,
{
    let end = ".tar.gz"@;
    let x = calendar::stamp(a);
    let y = calendar::stamp(b);
    calendar::law_stamps_sort_by_time(a, b);
    calendar::lemma_lt_append(x, y, end, end);
    order::lemma_le_prefix(label, x + end, y + end);
    assert(label + x + end =~= label + (x + end));
    assert(label + y + end =~= label + (y + end));
    assert((label + x + end).subrange(label.len() as int, (label.len() + x.len()) as int) =~= x);
    assert((label + y + end).subrange(label.len() as int, (label.len() + y.len()) as int) =~= y);
}

} // verus!
