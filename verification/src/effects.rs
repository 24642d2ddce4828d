//! What plans do to files: a file system as a map from paths to bytes, and
//! what the commands keep of it.

use vstd::prelude::*;
use vstd::string::*;

use crate::archive::Member;
use crate::backup;
use crate::bundle;
use crate::calendar;
use crate::decimal;
use crate::drill;
use crate::listing::TreeView;
use crate::path;
use crate::plan;
use crate::plan::StepView;
use crate::recover;
use crate::restore;
use crate::rewrite;
use crate::schedule;
use crate::text;
use crate::text::Class;
use crate::verify;

verus! {

/// The files of a file system: what each path holds. A path is taken as it is
/// written; links and `..` are not followed.
pub type Files = Map<Seq<char>, Seq<u8>>;

/// The path is that of a directory, or lies below it.
pub open spec fn in_tree(p: Seq<char>, dir: Seq<char>) -> bool {
    p == dir || text::starts_with(p, dir + "/"@)
}

/// The files once a file or a directory has been moved.
pub open spec fn moved(files: Files, from: Seq<char>, to: Seq<char>) -> Files {
    Map::new(
        |p: Seq<char>|
            if in_tree(p, to) {
                files.contains_key(from + p.skip(to.len() as int))
            } else {
                files.contains_key(p) && !in_tree(p, from)
            },
        |p: Seq<char>|
            if in_tree(p, to) {
                files[from + p.skip(to.len() as int)]
            } else {
                files[p]
            },
    )
}

/// The files with a copy of one of them.
pub open spec fn copied(files: Files, from: Seq<char>, to: Seq<char>) -> Files {
    if files.contains_key(from) {
        files.insert(to, files[from])
    } else {
        files
    }
}

/// The files once a step has been done.
pub open spec fn effect(step: StepView, files: Files) -> Files {
    match step {
        StepView::Write { path, text, .. } => files.insert(path, vstd::utf8::encode_utf8(text)),
        StepView::Place { path, bytes } => files.insert(path, bytes),
        StepView::Rename { from, to, .. } => moved(files, from, to),
        StepView::Copy { from, to } => copied(files, from, to),
        StepView::Stage { from, to } => copied(files, from, to),
        StepView::RemoveFile { path } => files.remove(path),
        StepView::RemoveTree { path } => Map::new(
            |p: Seq<char>| files.contains_key(p) && !in_tree(p, path),
            |p: Seq<char>| files[p],
        ),
        _ => files,
    }
}

/// The files once the steps have been done, one after the other.
pub open spec fn effects(steps: Seq<StepView>, files: Files) -> Files
    decreases steps.len(),
{
    if steps.len() == 0 {
        files
    } else {
        effect(steps.last(), effects(steps.drop_last(), files))
    }
}

/// The step leaves what a path holds alone.
pub open spec fn spares(step: StepView, p: Seq<char>) -> bool {
    match step {
        StepView::Write { path, .. } => path != p,
        StepView::Place { path, .. } => path != p,
        StepView::Rename { from, to, .. } => !in_tree(p, from) && !in_tree(p, to),
        StepView::Copy { to, .. } => to != p,
        StepView::Stage { to, .. } => to != p,
        StepView::RemoveFile { path } => path != p,
        StepView::RemoveTree { path } => !in_tree(p, path),
        _ => true,
    }
}

/// A path holds the same in both.
pub open spec fn same_at(a: Files, b: Files, p: Seq<char>) -> bool {
    a.contains_key(p) == b.contains_key(p) && (a.contains_key(p) ==> a[p] == b[p])
}

/// Steps that leave a path alone leave it as it is.
pub proof fn lemma_spared(steps: Seq<StepView>, files: Files, p: Seq<char>)
    requires
        forall|k: int| 0 <= k < steps.len() ==> spares(#[trigger] steps[k], p),
    ensures
        same_at(effects(steps, files), files, p),
    decreases steps.len(),
{
    if steps.len() > 0 {
        let rest = steps.drop_last();
        assert forall|k: int| 0 <= k < rest.len() implies spares(#[trigger] rest[k], p) by {
            assert(rest[k] == steps[k]);
        }
        lemma_spared(rest, files, p);
        assert(spares(steps[steps.len() - 1], p));
    }
}

/// Steps one after the other have their effects one after the other.
pub proof fn lemma_effects_in_turn(a: Seq<StepView>, b: Seq<StepView>, files: Files)
    ensures
        effects(a + b, files) == effects(b, effects(a, files)),
    decreases b.len(),
{
    if b.len() == 0 {
        assert(a + b =~= a);
    } else {
        lemma_effects_in_turn(a, b.drop_last(), files);
        assert((a + b).drop_last() =~= a + b.drop_last());
        assert((a + b).last() == b.last());
    }
}

// ---------------------------------------------------------------------------
// Paths below a directory.
// ---------------------------------------------------------------------------

/// The path is a relative one.
pub open spec fn is_relative(p: Seq<char>) -> bool {
    !text::starts_with(p, "/"@)
}

/// What stands before a relative path below a directory.
pub open spec fn stem(base: Seq<char>) -> Seq<char> {
    if base.len() == 0 || text::ends_with(base, "/"@) {
        base
    } else {
        base + "/"@
    }
}

proof fn lemma_below(base: Seq<char>, rel: Seq<char>)
    requires
        is_relative(rel),
    ensures
        path::below(base, rel) == stem(base) + rel,
{
}

/// Different relative paths stay different below a directory.
proof fn lemma_below_differs(base: Seq<char>, x: Seq<char>, y: Seq<char>)
    requires
        is_relative(x),
        is_relative(y),
        x != y,
    ensures
        path::below(base, x) != path::below(base, y),
{
    let s = stem(base);
    if s + x == s + y {
        assert((s + x).skip(s.len() as int) =~= x);
        assert((s + y).skip(s.len() as int) =~= y);
    }
}

/// Nothing lies below two different names of one directory.
proof fn lemma_siblings(s: Seq<char>, x: Seq<char>, y: Seq<char>, p: Seq<char>)
    requires
        text::all_in(x, Class::Except('/')),
        text::all_in(y, Class::Except('/')),
        x != y,
        in_tree(p, s + x),
    ensures
        !in_tree(p, s + y),
{
    reveal_strlit("/");
    if in_tree(p, s + y) {
        let a = s + x;
        let b = s + y;
        lemma_in_tree(p, a);
        lemma_in_tree(p, b);
        assert(p.take(a.len() as int) == a);
        assert(p.take(b.len() as int) == b);
        if x.len() == y.len() {
            assert(a =~= b);
            assert(a.skip(s.len() as int) =~= x);
            assert(b.skip(s.len() as int) =~= y);
        } else if x.len() < y.len() {
            let k = x.len() as int;
            assert(p[a.len() as int] == '/');
            assert(p[a.len() as int] == b[a.len() as int]);
            assert(b[a.len() as int] == y[k]);
            assert(Class::Except('/').has(y[k]));
        } else {
            let k = y.len() as int;
            assert(p[b.len() as int] == '/');
            assert(p[b.len() as int] == a[b.len() as int]);
            assert(a[b.len() as int] == x[k]);
            assert(Class::Except('/').has(x[k]));
        }
    }
}

/// What lies in a directory begins with its path, and goes on with a slash.
proof fn lemma_in_tree(p: Seq<char>, dir: Seq<char>)
    requires
        in_tree(p, dir),
    ensures
        p.len() >= dir.len(),
        p.take(dir.len() as int) == dir,
        p.len() > dir.len() ==> p[dir.len() as int] == '/',
        p == dir + p.skip(dir.len() as int),
{
    reveal_strlit("/");
    let inside = dir + "/"@;
    if p == dir {
        assert(p.take(dir.len() as int) =~= dir);
    } else {
        assert(p.take(inside.len() as int) == inside);
        assert(p.take(dir.len() as int) =~= inside.take(dir.len() as int));
        assert(inside.take(dir.len() as int) =~= dir);
        assert(p[dir.len() as int] == p.take(inside.len() as int)[dir.len() as int]);
    }
    assert(p =~= p.take(dir.len() as int) + p.skip(dir.len() as int));
}

proof fn lemma_no_slash_in_sum(a: Seq<char>, b: Seq<char>)
    requires
        text::all_in(a, Class::Except('/')),
        text::all_in(b, Class::Except('/')),
    ensures
        text::all_in(a + b, Class::Except('/')),
{
    assert forall|i: int| 0 <= i < (a + b).len() implies Class::Except('/').has(
        #[trigger] (a + b)[i],
    ) by {
        if i < a.len() {
            assert(Class::Except('/').has(a[i]));
        } else {
            assert(Class::Except('/').has(b[i - a.len()]));
        }
    }
}

proof fn lemma_no_slash_in_number(n: nat, width: int)
    ensures
        text::all_in(decimal::padded(n, width), Class::Except('/')),
{
    decimal::lemma_decimal(n);
    let digits = decimal::decimal(n);
    let all = decimal::padded(n, width);
    let zeros = all.len() - digits.len();
    assert forall|i: int| 0 <= i < all.len() implies Class::Except('/').has(#[trigger] all[i]) by {
        if i >= zeros {
            assert(all[i] == digits[i - zeros]);
            assert(Class::Digit.has(digits[i - zeros]));
        }
    }
}

/// A moment in the house format can stand in a name.
proof fn lemma_no_slash_in_stamp(epoch: nat)
    ensures
        text::all_in(calendar::stamp(epoch), Class::Except('/')),
{
    reveal_strlit("");
    reveal_strlit("T");
    reveal_strlit("Z");
    let t = calendar::date_of((epoch / 86400) as int);
    let rem = epoch % 86400;
    lemma_no_slash_in_number(t.0 as nat, 4);
    lemma_no_slash_in_number(t.1 as nat, 2);
    lemma_no_slash_in_number(t.2 as nat, 2);
    lemma_no_slash_in_number(rem / 3600, 2);
    lemma_no_slash_in_number((rem % 3600) / 60, 2);
    lemma_no_slash_in_number(rem % 60, 2);
    let y = decimal::padded(t.0 as nat, 4);
    let m = decimal::padded(t.1 as nat, 2);
    let d = decimal::padded(t.2 as nat, 2);
    lemma_no_slash_in_sum(y, ""@);
    lemma_no_slash_in_sum(y + ""@, m);
    lemma_no_slash_in_sum(y + ""@ + m, ""@);
    lemma_no_slash_in_sum(y + ""@ + m + ""@, d);
    let date = calendar::date_text(epoch, ""@);
    let h = decimal::padded(rem / 3600, 2);
    let min = decimal::padded((rem % 3600) / 60, 2);
    lemma_no_slash_in_sum(h, ""@);
    lemma_no_slash_in_sum(h + ""@, min);
    let clock = calendar::minute_text(epoch, ""@);
    let sec = decimal::padded(rem % 60, 2);
    lemma_no_slash_in_sum(date, "T"@);
    lemma_no_slash_in_sum(date + "T"@, clock);
    lemma_no_slash_in_sum(date + "T"@ + clock, sec);
    lemma_no_slash_in_sum(date + "T"@ + clock + sec, "Z"@);
}

// ---------------------------------------------------------------------------
// Members that are placed.
// ---------------------------------------------------------------------------

/// Each member is placed where its name says.
pub open spec fn are_placed(
    steps: Seq<StepView>,
    members: Seq<Member>,
    place: spec_fn(Seq<char>) -> Seq<char>,
) -> bool {
    steps.len() == members.len() && forall|i: int|
        0 <= i < steps.len() ==> #[trigger] steps[i] == (StepView::Place {
            path: place(members[i].name@),
            bytes: members[i].bytes@,
        })
}

/// No other member is placed where the name is.
pub open spec fn is_alone(
    members: Seq<Member>,
    place: spec_fn(Seq<char>) -> Seq<char>,
    name: Seq<char>,
) -> bool {
    forall|i: int|
        0 <= i < members.len() && (#[trigger] members[i]).name@ != name ==> place(members[i].name@)
            != place(name)
}

proof fn lemma_placed(
    steps: Seq<StepView>,
    members: Seq<Member>,
    place: spec_fn(Seq<char>) -> Seq<char>,
    files: Files,
    name: Seq<char>,
)
    requires
        are_placed(steps, members, place),
        is_alone(members, place, name),
        backup::contents(members).contains_key(name),
    ensures
        effects(steps, files).contains_key(place(name)),
        effects(steps, files)[place(name)] == backup::contents(members)[name],
    decreases members.len(),
{
    let rest = members.drop_last();
    let last = members.last();
    assert(steps[steps.len() - 1] == StepView::Place {
        path: place(last.name@),
        bytes: last.bytes@,
    });
    if last.name@ != name {
        let front = steps.drop_last();
        assert(are_placed(front, rest, place)) by {
            assert forall|i: int| 0 <= i < front.len() implies #[trigger] front[i] == (
            StepView::Place { path: place(rest[i].name@), bytes: rest[i].bytes@ }) by {
                assert(front[i] == steps[i]);
            }
        }
        assert(is_alone(rest, place, name)) by {
            assert forall|i: int| 0 <= i < rest.len() && (#[trigger] rest[i]).name@ != name implies
                place(rest[i].name@) != place(name) by {
                assert(rest[i] == members[i]);
            }
        }
        lemma_placed(front, rest, place, files, name);
        assert(members[members.len() - 1] == last);
    }
}

// ---------------------------------------------------------------------------
// Recovery.
// ---------------------------------------------------------------------------

/// Where a recovery sets a name aside.
pub open spec fn aside_name(target: Seq<char>, epoch: nat) -> Seq<char> {
    target + ".pre-recover."@ + calendar::stamp(epoch)
}

/// Where a recovery places a member.
pub open spec fn recovered_at(root: Seq<char>) -> spec_fn(Seq<char>) -> Seq<char> {
    |name: Seq<char>| path::below(root, name)
}

/// Where a restore places a member.
pub open spec fn restored_at(
    target: Seq<char>,
    members: Seq<Member>,
    origin: Option<Seq<char>>,
    tenant: Seq<char>,
) -> spec_fn(Seq<char>) -> Seq<char> {
    |name: Seq<char>|
        path::below(
            target,
            restore::landing(
                name,
                restore::shared_top(backup::names_of(members)),
                origin,
                tenant,
            ),
        )
}

/// Members with relative names are recovered apart.
pub proof fn law_members_are_recovered_apart(
    root: Seq<char>,
    members: Seq<Member>,
    name: Seq<char>,
)
    requires
        is_relative(name),
        forall|i: int| 0 <= i < members.len() ==> is_relative((#[trigger] members[i]).name@),
    ensures
        is_alone(members, recovered_at(root), name),
{
    let place = recovered_at(root);
    assert forall|i: int| 0 <= i < members.len() && (#[trigger] members[i]).name@ != name implies
        place(members[i].name@) != place(name) by {
        lemma_below_differs(root, members[i].name@, name);
    }
}

/// A recovery brings the deployment back at its original shape: every member
/// of the archive stands at its original path with its bytes, unless another
/// member has the same path.
pub proof fn law_recovery_brings_the_archive_back(
    root: Seq<char>,
    present: Seq<Seq<char>>,
    members: Seq<Member>,
    epoch: nat,
    files: Files,
    name: Seq<char>,
)
    requires
        is_alone(members, recovered_at(root), name),
        backup::contents(members).contains_key(name),
    ensures
        ({
            let after = effects(recover::recover_steps(root, present, members, epoch), files);
            after.contains_key(path::below(root, name)) && after[path::below(root, name)]
                == backup::contents(members)[name]
        }),
{
    let a = recover::aside_steps(root, recover::live_state(), present, epoch);
    let b = drill::original_shape(members, root);
    let all = recover::recover_steps(root, present, members, epoch);
    let c = all.skip((a + b).len() as int);
    assert(all =~= a + b + c);
    lemma_effects_in_turn(a, b, files);
    lemma_effects_in_turn(a + b, c, files);
    let place = recovered_at(root);
    assert(are_placed(b, members, place));
    lemma_placed(b, members, place, effects(a, files), name);
    let p = path::below(root, name);
    assert forall|k: int| 0 <= k < c.len() implies spares(#[trigger] c[k], p) by {
        assert(c[k] is Say);
    }
    lemma_spared(c, effects(a + b, files), p);
}

/// A name that can be set aside: one component, and not set aside already.
pub open spec fn is_plain(name: Seq<char>) -> bool {
    text::all_in(name, Class::Except('/')) && !recover::is_leftover(name)
}

proof fn lemma_aside_name(target: Seq<char>, epoch: nat)
    requires
        is_plain(target),
    ensures
        text::all_in(aside_name(target, epoch), Class::Except('/')),
        recover::is_leftover(aside_name(target, epoch)),
        is_relative(aside_name(target, epoch)),
{
    reveal_strlit(".pre-recover.");
    reveal_strlit("/");
    let mark = ".pre-recover."@;
    lemma_no_slash_in_stamp(epoch);
    lemma_no_slash_in_sum(target, mark);
    lemma_no_slash_in_sum(target + mark, calendar::stamp(epoch));
    let name = aside_name(target, epoch);
    let n = target.len() as int;
    assert(name.subrange(n, n + mark.len()) =~= mark);
    assert(text::occurs_at(name, mark, n));
    lemma_plain_is_relative(name);
}

proof fn lemma_plain_is_relative(name: Seq<char>)
    requires
        text::all_in(name, Class::Except('/')),
    ensures
        is_relative(name),
{
    reveal_strlit("/");
    if !is_relative(name) {
        assert(name.take(1)[0] == '/');
        assert(Class::Except('/').has(name[0]));
    }
}

/// What one thing that is set aside leaves alone.
proof fn lemma_aside_spares(
    root: Seq<char>,
    target: Seq<char>,
    present: Seq<Seq<char>>,
    epoch: nat,
    name: Seq<char>,
    p: Seq<char>,
)
    requires
        is_plain(target),
        text::all_in(name, Class::Except('/')),
        name != target,
        name != aside_name(target, epoch),
        in_tree(p, path::below(root, name)),
    ensures
        forall|k: int|
            0 <= k < recover::aside_one(root, target, present, epoch).len() ==> spares(
                #[trigger] recover::aside_one(root, target, present, epoch)[k],
                p,
            ),
{
    lemma_plain_is_relative(name);
    lemma_plain_is_relative(target);
    lemma_aside_name(target, epoch);
    let s = stem(root);
    lemma_below(root, name);
    lemma_below(root, target);
    lemma_below(root, aside_name(target, epoch));
    lemma_siblings(s, name, target, p);
    lemma_siblings(s, name, aside_name(target, epoch), p);
}

proof fn lemma_aside_steps_spare(
    root: Seq<char>,
    targets: Seq<Seq<char>>,
    present: Seq<Seq<char>>,
    epoch: nat,
    name: Seq<char>,
    p: Seq<char>,
)
    requires
        forall|i: int|
            0 <= i < targets.len() ==> is_plain(#[trigger] targets[i]) && name != targets[i] && name
                != aside_name(targets[i], epoch),
        text::all_in(name, Class::Except('/')),
        in_tree(p, path::below(root, name)),
    ensures
        forall|k: int|
            0 <= k < recover::aside_steps(root, targets, present, epoch).len() ==> spares(
                #[trigger] recover::aside_steps(root, targets, present, epoch)[k],
                p,
            ),
    decreases targets.len(),
{
    if targets.len() > 0 {
        let rest = targets.drop_last();
        assert forall|i: int| 0 <= i < rest.len() implies is_plain(#[trigger] rest[i]) && name
            != rest[i] && name != aside_name(rest[i], epoch) by {
            assert(rest[i] == targets[i]);
        }
        lemma_aside_steps_spare(root, rest, present, epoch, name, p);
        assert(is_plain(targets[targets.len() - 1]));
        lemma_aside_spares(root, targets.last(), present, epoch, name, p);
        let a = recover::aside_steps(root, rest, present, epoch);
        let b = recover::aside_one(root, targets.last(), present, epoch);
        let all = recover::aside_steps(root, targets, present, epoch);
        assert(all == a + b);
        assert forall|k: int| 0 <= k < all.len() implies spares(#[trigger] all[k], p) by {
            if k < a.len() {
                assert(all[k] == a[k]);
            } else {
                assert(all[k] == b[k - a.len()]);
            }
        }
    }
}

/// Where a path goes when a directory is moved.
pub open spec fn carried(p: Seq<char>, from: Seq<char>, to: Seq<char>) -> Seq<char> {
    to + p.skip(from.len() as int)
}

/// A move carries every file of the directory along.
proof fn lemma_moved(files: Files, from: Seq<char>, to: Seq<char>, p: Seq<char>)
    requires
        in_tree(p, from),
        files.contains_key(p),
    ensures
        in_tree(carried(p, from, to), to),
        moved(files, from, to).contains_key(carried(p, from, to)),
        moved(files, from, to)[carried(p, from, to)] == files[p],
{
    reveal_strlit("/");
    lemma_in_tree(p, from);
    let rest = p.skip(from.len() as int);
    let q = carried(p, from, to);
    assert(q.skip(to.len() as int) =~= rest);
    if rest.len() == 0 {
        assert(q =~= to);
    } else {
        assert(rest[0] == '/');
        assert(q.take((to + "/"@).len() as int) =~= to + "/"@);
    }
    assert(from + rest =~= p);
}

proof fn lemma_set_aside(
    root: Seq<char>,
    targets: Seq<Seq<char>>,
    present: Seq<Seq<char>>,
    epoch: nat,
    files: Files,
    t: int,
    p: Seq<char>,
)
    requires
        0 <= t < targets.len(),
        forall|i: int| 0 <= i < targets.len() ==> is_plain(#[trigger] targets[i]),
        forall|i: int, j: int|
            0 <= i < j < targets.len() ==> #[trigger] targets[i] != #[trigger] targets[j],
        present.contains(targets[t]),
        in_tree(p, path::below(root, targets[t])),
        files.contains_key(p),
    ensures
        ({
            let from = path::below(root, targets[t]);
            let to = path::below(root, aside_name(targets[t], epoch));
            let after = effects(recover::aside_steps(root, targets, present, epoch), files);
            after.contains_key(carried(p, from, to)) && after[carried(p, from, to)] == files[p]
        }),
    decreases targets.len(),
{
    let name = targets[t];
    let rest = targets.drop_last();
    let last = targets.last();
    assert(targets[targets.len() - 1] == last);
    let from = path::below(root, name);
    let to = path::below(root, aside_name(name, epoch));
    let q = carried(p, from, to);
    let a = recover::aside_steps(root, rest, present, epoch);
    let b = recover::aside_one(root, last, present, epoch);
    assert(recover::aside_steps(root, targets, present, epoch) == a + b);
    lemma_effects_in_turn(a, b, files);
    let middle = effects(a, files);
    assert(is_plain(name));
    lemma_aside_name(name, epoch);
    if t == targets.len() - 1 {
        assert forall|i: int| 0 <= i < rest.len() implies is_plain(#[trigger] rest[i]) && name
            != rest[i] && name != aside_name(rest[i], epoch) by {
            assert(rest[i] == targets[i]);
            lemma_aside_name(rest[i], epoch);
        }
        lemma_aside_steps_spare(root, rest, present, epoch, name, p);
        lemma_spared(a, files, p);
        lemma_moved(middle, from, to, p);
        assert(b.len() == 2);
        assert(b.drop_last().drop_last() =~= Seq::<StepView>::empty());
        assert(effects(b.drop_last().drop_last(), middle) == middle);
        assert(b.drop_last().last() == b[0]);
        assert(b.last() == b[1]);
        assert(effects(b.drop_last(), middle) == effect(b[0], middle));
        assert(effects(b, middle) == effect(b[0], middle));
    } else {
        assert forall|i: int| 0 <= i < rest.len() implies is_plain(#[trigger] rest[i]) by {
            assert(rest[i] == targets[i]);
        }
        assert forall|i: int, j: int|
            0 <= i < j < rest.len() implies #[trigger] rest[i] != #[trigger] rest[j] by {
            assert(rest[i] == targets[i] && rest[j] == targets[j]);
        }
        assert(rest[t] == name);
        lemma_set_aside(root, rest, present, epoch, files, t, p);
        let other = aside_name(name, epoch);
        lemma_aside_name(last, epoch);
        assert(other != aside_name(last, epoch)) by {
            if other == aside_name(last, epoch) {
                let tail = ".pre-recover."@ + calendar::stamp(epoch);
                assert(other =~= name + tail);
                assert(aside_name(last, epoch) =~= last + tail);
                assert((name + tail).take(other.len() - tail.len()) =~= name);
                assert((last + tail).take(other.len() - tail.len()) =~= last);
            }
        }
        lemma_carried(p, from, to);
        lemma_aside_spares(root, last, present, epoch, other, q);
        lemma_spared(b, middle, q);
    }
}

proof fn lemma_carried(p: Seq<char>, from: Seq<char>, to: Seq<char>)
    requires
        in_tree(p, from),
    ensures
        in_tree(carried(p, from, to), to),
{
    lemma_moved(Map::empty().insert(p, Seq::empty()), from, to, p);
}

/// The names of the live state can be set aside, and differ.
proof fn lemma_live_state()
    ensures
        forall|i: int|
            0 <= i < recover::live_state().len() ==> is_plain(#[trigger] recover::live_state()[i]),
        forall|i: int, j: int|
            0 <= i < j < recover::live_state().len() ==> #[trigger] recover::live_state()[i]
                != #[trigger] recover::live_state()[j],
{
    reveal_strlit("unidpp-operator.yaml");
    reveal_strlit("registry-journal.jsonl");
    reveal_strlit("jp-registry-journal.jsonl");
    reveal_strlit("run");
    reveal_strlit("tenants");
    reveal_strlit("seed");
    let names = recover::live_state();
    assert(names[0].len() == 20 && names[1].len() == 22 && names[2].len() == 25);
    assert(names[3].len() == 3 && names[4].len() == 7 && names[5].len() == 4);
    assert forall|i: int| 0 <= i < names.len() implies is_plain(#[trigger] names[i]) by {
        lemma_not_leftover(names[i]);
    }
}

/// A name in which no dot stands before a `p` was not set aside.
proof fn lemma_not_leftover(name: Seq<char>)
    requires
        forall|k: int| 0 <= k < name.len() - 1 ==> !(#[trigger] name[k] == '.' && name[k + 1]
            == 'p'),
    ensures
        !recover::is_leftover(name),
{
    reveal_strlit(".pre-recover.");
    let mark = ".pre-recover."@;
    if recover::is_leftover(name) {
        let k = choose|k: int| text::occurs_at(name, mark, k);
        assert(name.subrange(k, k + mark.len()) == mark);
        assert(name[k] == mark[0]);
        assert(name[k + 1] == mark[1]);
    }
}

/// A recovery loses nothing: every file of the live state that was there
/// stands, with its bytes, under the name that it was set aside to, unless the
/// archive holds a member that belongs right there.
pub proof fn law_recovery_loses_nothing(
    root: Seq<char>,
    present: Seq<Seq<char>>,
    members: Seq<Member>,
    epoch: nat,
    files: Files,
    t: int,
    p: Seq<char>,
)
    requires
        0 <= t < recover::live_state().len(),
        present.contains(recover::live_state()[t]),
        in_tree(p, path::below(root, recover::live_state()[t])),
        files.contains_key(p),
        forall|i: int|
            0 <= i < members.len() ==> !in_tree(
                path::below(root, (#[trigger] members[i]).name@),
                path::below(root, aside_name(recover::live_state()[t], epoch)),
            ),
    ensures
        ({
            let from = path::below(root, recover::live_state()[t]);
            let to = path::below(root, aside_name(recover::live_state()[t], epoch));
            let after = effects(recover::recover_steps(root, present, members, epoch), files);
            after.contains_key(carried(p, from, to)) && after[carried(p, from, to)] == files[p]
        }),
{
    let name = recover::live_state()[t];
    let from = path::below(root, name);
    let to = path::below(root, aside_name(name, epoch));
    let q = carried(p, from, to);
    lemma_live_state();
    lemma_set_aside(root, recover::live_state(), present, epoch, files, t, p);
    let a = recover::aside_steps(root, recover::live_state(), present, epoch);
    let b = drill::original_shape(members, root);
    let all = recover::recover_steps(root, present, members, epoch);
    let c = all.skip((a + b).len() as int);
    assert(all =~= a + b + c);
    lemma_effects_in_turn(a, b, files);
    lemma_effects_in_turn(a + b, c, files);
    lemma_carried(p, from, to);
    assert forall|k: int| 0 <= k < b.len() implies spares(#[trigger] b[k], q) by {
        assert(b[k] == StepView::Place {
            path: path::below(root, members[k].name@),
            bytes: members[k].bytes@,
        });
    }
    lemma_spared(b, effects(a, files), q);
    assert forall|k: int| 0 <= k < c.len() implies spares(#[trigger] c[k], q) by {
        assert(c[k] is Say);
    }
    lemma_spared(c, effects(a + b, files), q);
}

/// A recovery overwrites nothing that a backup holds: where a file of the
/// deployment stood that an archive can bring back, its bytes stand under the
/// name that its part of the live state was set aside to.
pub proof fn law_recovery_overwrites_nothing(
    root: Seq<char>,
    names: Seq<Seq<char>>,
    run: Seq<TreeView>,
    tenants: Seq<TreeView>,
    seed: Seq<TreeView>,
    x: Seq<char>,
    present: Seq<Seq<char>>,
    members: Seq<Member>,
    epoch: nat,
    files: Files,
)
    requires
        backup::payload_of(names, run, tenants, seed).contains(x),
        present.contains(restore::top(x)),
        files.contains_key(path::below(root, x)),
        forall|i: int|
            0 <= i < members.len() ==> !in_tree(
                path::below(root, (#[trigger] members[i]).name@),
                path::below(root, aside_name(restore::top(x), epoch)),
            ),
    ensures
        ({
            let from = path::below(root, restore::top(x));
            let to = path::below(root, aside_name(restore::top(x), epoch));
            let after = effects(recover::recover_steps(root, present, members, epoch), files);
            let kept = carried(path::below(root, x), from, to);
            after.contains_key(kept) && after[kept] == files[path::below(root, x)]
        }),
{
    reveal_strlit("/");
    recover::law_what_comes_back_is_set_aside(names, run, tenants, seed, x);
    lemma_live_state();
    let top = restore::top(x);
    let all = recover::live_state();
    let t = choose|t: int| 0 <= t < all.len() && all[t] == top;
    assert(is_plain(all[t]));
    lemma_live_names_are_long();
    assert(all[t].len() > 0);
    text::lemma_lead(x, Class::Except('/'));
    let n = text::lead(x, Class::Except('/'));
    assert(top.len() == n);
    assert(Class::Except('/').has(x[0]));
    assert(is_relative(x)) by {
        if text::starts_with(x, "/"@) {
            assert(x.take(1)[0] == '/');
        }
    }
    assert(is_relative(top)) by {
        if text::starts_with(top, "/"@) {
            assert(top.take(1)[0] == '/');
        }
    }
    lemma_below(root, x);
    lemma_below(root, top);
    let p = stem(root) + x;
    let dir = stem(root) + top;
    if n == x.len() {
        assert(top =~= x);
    } else {
        assert(x[n] == '/');
        assert(p.take((dir + "/"@).len() as int) =~= dir + "/"@);
    }
    law_recovery_loses_nothing(root, present, members, epoch, files, t, p);
}

proof fn lemma_live_names_are_long()
    ensures
        forall|i: int|
            0 <= i < recover::live_state().len() ==> (#[trigger] recover::live_state()[i]).len() > 0,
{
    reveal_strlit("unidpp-operator.yaml");
    reveal_strlit("registry-journal.jsonl");
    reveal_strlit("jp-registry-journal.jsonl");
    reveal_strlit("run");
    reveal_strlit("tenants");
    reveal_strlit("seed");
    assert forall|i: int| 0 <= i < recover::live_state().len() implies (
    #[trigger] recover::live_state()[i]).len() > 0 by {
        assert(recover::live_state().contains(recover::live_state()[i]));
        recover::law_live_state_is_named(recover::live_state()[i]);
    }
}

// ---------------------------------------------------------------------------
// Restore.
// ---------------------------------------------------------------------------

/// What a restore does until the manifest is rewritten: the tenant's
/// directory is prepared and the members are placed in it.
pub open spec fn restore_steps(
    target: Seq<char>,
    exists: bool,
    epoch: nat,
    members: Seq<Member>,
    origin: Option<Seq<char>>,
    tenant: Seq<char>,
) -> Seq<StepView> {
    restore::preparation(target, exists, epoch) + restore::placements(
        members,
        target,
        restore::shared_top(backup::names_of(members)),
        origin,
        tenant,
    )
}

/// The files once a restore is done: the manifest that stands in the tenant
/// by then is rewritten, unless it is no text, which ends the restore.
pub open spec fn restored_files(
    target: Seq<char>,
    exists: bool,
    epoch: nat,
    members: Seq<Member>,
    origin: Option<Seq<char>>,
    tenant: Seq<char>,
    files: Files,
) -> Files {
    let placed = effects(restore_steps(target, exists, epoch, members, origin, tenant), files);
    let manifest = restore::manifest_of(target);
    if placed.contains_key(manifest) && vstd::utf8::valid_utf8(placed[manifest]) {
        effect(
            restore::manifest_step(manifest, vstd::utf8::decode_utf8(placed[manifest]), tenant),
            placed,
        )
    } else {
        placed
    }
}

/// What a member holds once it is restored: the manifest becomes the tenant's
/// own, everything else stays as it is.
pub open spec fn restored_bytes(bytes: Seq<u8>, is_manifest: bool, tenant: Seq<char>) -> Seq<u8> {
    if is_manifest && vstd::utf8::valid_utf8(bytes) {
        vstd::utf8::encode_utf8(
            rewrite::restored_manifest(vstd::utf8::decode_utf8(bytes), tenant),
        )
    } else {
        bytes
    }
}

/// The name of a tenant: not empty, and no slash ends it.
pub open spec fn is_tenant(tenant: Seq<char>) -> bool {
    tenant.len() > 0 && tenant.last() != '/'
}

/// The members have relative names below the directory that they share.
pub open spec fn are_relative(members: Seq<Member>) -> bool {
    forall|i: int|
        0 <= i < members.len() ==> is_relative(
            restore::stripped(
                (#[trigger] members[i]).name@,
                restore::shared_top(backup::names_of(members)),
            ),
        )
}

/// A tenant's directory ends with the tenant's name.
proof fn lemma_tenant_dir(root: Seq<char>, tenant: Seq<char>)
    requires
        is_tenant(tenant),
    ensures
        ({
            let target = restore::tenant_dir(root, tenant);
            target.len() > 0 && !text::ends_with(target, "/"@) && stem(target) == target + "/"@
        }),
{
    reveal_strlit("/");
    let target = restore::tenant_dir(root, tenant);
    let base = path::below(root, "tenants"@);
    if is_relative(tenant) {
        lemma_below(base, tenant);
    }
    assert(target.last() == tenant.last());
    if text::ends_with(target, "/"@) {
        assert(target.skip(target.len() - 1)[0] == '/');
    }
}

/// The manifest of a tenant lies in its directory.
proof fn lemma_manifest_in_tenant(root: Seq<char>, tenant: Seq<char>)
    requires
        is_tenant(tenant),
    ensures
        ({
            let target = restore::tenant_dir(root, tenant);
            &&& restore::manifest_of(target) == target + "/"@ + "unidpp-operator.yaml"@
            &&& in_tree(restore::manifest_of(target), target)
        }),
{
    reveal_strlit("/");
    reveal_strlit("unidpp-operator.yaml");
    let target = restore::tenant_dir(root, tenant);
    let name = "unidpp-operator.yaml"@;
    assert(is_relative(name)) by {
        if text::starts_with(name, "/"@) {
            assert(name.take(1)[0] == '/');
        }
    }
    lemma_tenant_dir(root, tenant);
    lemma_below(target, name);
    let inside = target + "/"@;
    assert((inside + name).take(inside.len() as int) =~= inside);
}

/// Where the members of a restore are placed.
proof fn lemma_restore_places(
    root: Seq<char>,
    members: Seq<Member>,
    origin: Option<Seq<char>>,
    tenant: Seq<char>,
    i: int,
)
    requires
        is_tenant(tenant),
        are_relative(members),
        0 <= i < members.len(),
    ensures
        ({
            let target = restore::tenant_dir(root, tenant);
            let strip = restore::shared_top(backup::names_of(members));
            let land = restore::landing(members[i].name@, strip, origin, tenant);
            &&& is_relative(land)
            &&& path::below(target, land) == target + "/"@ + land
            &&& restore::placements(members, target, strip, origin, tenant)[i]
                == (StepView::Place {
                path: target + "/"@ + land,
                bytes: members[i].bytes@,
            })
        }),
{
    let strip = restore::shared_top(backup::names_of(members));
    let target = restore::tenant_dir(root, tenant);
    let bare = restore::stripped(members[i].name@, strip);
    assert(is_relative(bare));
    restore::lemma_relative(bare, origin, tenant);
    lemma_tenant_dir(root, tenant);
    lemma_below(target, restore::restored_name(bare, origin, tenant));
}

/// Members are restored apart, in the layout of a backup and in that of a
/// bundle, unless the archive already holds a member of the restored tenant
/// or one with an absolute name.
pub proof fn law_members_are_restored_apart(
    target: Seq<char>,
    members: Seq<Member>,
    origin: Option<Seq<char>>,
    tenant: Seq<char>,
    name: Seq<char>,
)
    requires
        are_relative(members),
        forall|i: int|
            0 <= i < members.len() ==> !restore::lies_in(
                restore::stripped(
                    (#[trigger] members[i]).name@,
                    restore::shared_top(backup::names_of(members)),
                ),
                tenant,
            ),
        backup::contents(members).contains_key(name),
    ensures
        is_alone(members, restored_at(target, members, origin, tenant), name),
{
    let place = restored_at(target, members, origin, tenant);
    let strip = restore::shared_top(backup::names_of(members));
    let steps = restore::placements(members, target, strip, origin, tenant);
    verify::lemma_contents(members);
    let j = choose|j: int| 0 <= j < members.len() && backup::names_of(members)[j] == name;
    assert(members[j].name@ == name);
    assert forall|i: int| 0 <= i < members.len() && (#[trigger] members[i]).name@ != name implies
        place(members[i].name@) != place(name) by {
        restore::law_members_land_apart(members, target, origin, tenant, i, j);
        assert(steps[i]->Place_path == place(members[i].name@));
        assert(steps[j]->Place_path == place(name));
    }
}

/// A restore brings every member of the archive: it stands where it lands
/// below the tenant, the manifest rewritten and everything else with its bytes,
/// unless another member lands at the same path.
pub proof fn law_restore_brings_the_archive_back(
    root: Seq<char>,
    exists: bool,
    epoch: nat,
    members: Seq<Member>,
    origin: Option<Seq<char>>,
    tenant: Seq<char>,
    files: Files,
    name: Seq<char>,
)
    requires
        is_alone(
            members,
            restored_at(restore::tenant_dir(root, tenant), members, origin, tenant),
            name,
        ),
        backup::contents(members).contains_key(name),
    ensures
        ({
            let target = restore::tenant_dir(root, tenant);
            let p = restored_at(target, members, origin, tenant)(name);
            let after = restored_files(target, exists, epoch, members, origin, tenant, files);
            after.contains_key(p) && after[p] == restored_bytes(
                backup::contents(members)[name],
                p == restore::manifest_of(target),
                tenant,
            )
        }),
{
    let target = restore::tenant_dir(root, tenant);
    let strip = restore::shared_top(backup::names_of(members));
    let a = restore::preparation(target, exists, epoch);
    let b = restore::placements(members, target, strip, origin, tenant);
    lemma_effects_in_turn(a, b, files);
    let place = restored_at(target, members, origin, tenant);
    assert(are_placed(b, members, place));
    lemma_placed(b, members, place, effects(a, files), name);
}

/// A restore by force loses nothing: every file of the tenant that was there
/// stands, with its bytes, under the name that it was renamed aside to, unless
/// the archive holds a member that lands right there.
pub proof fn law_restore_keeps_the_old_tenant(
    root: Seq<char>,
    epoch: nat,
    members: Seq<Member>,
    origin: Option<Seq<char>>,
    tenant: Seq<char>,
    files: Files,
    p: Seq<char>,
)
    requires
        is_tenant(tenant),
        in_tree(p, restore::tenant_dir(root, tenant)),
        files.contains_key(p),
        forall|i: int|
            0 <= i < members.len() ==> !in_tree(
                restored_at(restore::tenant_dir(root, tenant), members, origin, tenant)(
                    (#[trigger] members[i]).name@,
                ),
                restore::tenant_dir(root, tenant) + ".pre-restore."@ + calendar::stamp(epoch),
            ),
    ensures
        ({
            let target = restore::tenant_dir(root, tenant);
            let aside = target + ".pre-restore."@ + calendar::stamp(epoch);
            let after = restored_files(target, true, epoch, members, origin, tenant, files);
            after.contains_key(carried(p, target, aside)) && after[carried(p, target, aside)]
                == files[p]
        }),
{
    reveal_strlit("/");
    reveal_strlit(".pre-restore.");
    let target = restore::tenant_dir(root, tenant);
    let aside = target + ".pre-restore."@ + calendar::stamp(epoch);
    let strip = restore::shared_top(backup::names_of(members));
    let q = carried(p, target, aside);
    let a = restore::preparation(target, true, epoch);
    let b = restore::placements(members, target, strip, origin, tenant);
    lemma_effects_in_turn(a, b, files);
    lemma_moved(files, target, aside, p);
    assert(a.len() == 2);
    assert(a.drop_last().drop_last() =~= Seq::<StepView>::empty());
    assert(effects(a.drop_last().drop_last(), files) == files);
    assert(a.drop_last().last() == a[0]);
    assert(a.last() == a[1]);
    assert(effects(a.drop_last(), files) == effect(a[0], files));
    assert(effects(a, files) == moved(files, target, aside));
    let n = target.len() as int;
    assert(q[n] == aside[n]);
    assert(aside[n] == '.');
    assert forall|k: int| 0 <= k < b.len() implies spares(#[trigger] b[k], q) by {
        let place = restored_at(target, members, origin, tenant);
        assert(b[k] == StepView::Place {
            path: place(members[k].name@),
            bytes: members[k].bytes@,
        });
    }
    lemma_spared(b, effects(a, files), q);
    lemma_manifest_in_tenant(root, tenant);
    assert(restore::manifest_of(target)[n] == '/');
}

/// A restore touches nothing but its tenant: whatever lies neither in the
/// tenant's directory nor where that is renamed aside to stays as it is.
pub proof fn law_restore_touches_only_the_tenant(
    root: Seq<char>,
    exists: bool,
    epoch: nat,
    members: Seq<Member>,
    origin: Option<Seq<char>>,
    tenant: Seq<char>,
    files: Files,
    p: Seq<char>,
)
    requires
        is_tenant(tenant),
        are_relative(members),
        !in_tree(p, restore::tenant_dir(root, tenant)),
        !in_tree(
            p,
            restore::tenant_dir(root, tenant) + ".pre-restore."@ + calendar::stamp(epoch),
        ),
    ensures
        same_at(
            restored_files(
                restore::tenant_dir(root, tenant),
                exists,
                epoch,
                members,
                origin,
                tenant,
                files,
            ),
            files,
            p,
        ),
{
    let target = restore::tenant_dir(root, tenant);
    let strip = restore::shared_top(backup::names_of(members));
    let a = restore::preparation(target, exists, epoch);
    let b = restore::placements(members, target, strip, origin, tenant);
    let all = restore_steps(target, exists, epoch, members, origin, tenant);
    assert forall|k: int| 0 <= k < all.len() implies spares(#[trigger] all[k], p) by {
        if k < a.len() {
            assert(all[k] == a[k]);
        } else {
            let i = k - a.len();
            assert(all[k] == b[i]);
            lemma_restore_places(root, members, origin, tenant, i);
            let land = restore::landing(members[i].name@, strip, origin, tenant);
            let inside = target + "/"@;
            assert((inside + land).take(inside.len() as int) =~= inside);
        }
    }
    lemma_spared(all, files, p);
    lemma_manifest_in_tenant(root, tenant);
}

// ---------------------------------------------------------------------------
// Retirement and retention.
// ---------------------------------------------------------------------------

/// A tenant that is retired keeps every file: it stands, with its bytes,
/// below the retired name.
pub proof fn law_retirement_keeps_every_file(
    bundle: Seq<char>,
    root: Seq<char>,
    tenant: Seq<char>,
    epoch: nat,
    files: Files,
    p: Seq<char>,
)
    requires
        in_tree(p, restore::tenant_dir(root, tenant)),
        files.contains_key(p),
    ensures
        ({
            let from = restore::tenant_dir(root, tenant);
            let to = restore::tenant_dir(root, bundle::retired_name(tenant, epoch));
            let after = effects(bundle::retirement(bundle, root, tenant, epoch), files);
            after.contains_key(carried(p, from, to)) && after[carried(p, from, to)] == files[p]
        }),
{
    let from = restore::tenant_dir(root, tenant);
    let to = restore::tenant_dir(root, bundle::retired_name(tenant, epoch));
    let steps = bundle::retirement(bundle, root, tenant, epoch);
    let first = steps.take(1);
    let rest = steps.skip(1);
    assert(steps =~= first + rest);
    lemma_effects_in_turn(first, rest, files);
    assert(first.drop_last() =~= Seq::<StepView>::empty());
    assert(effects(first.drop_last(), files) == files);
    assert(effects(first, files) == moved(files, from, to));
    lemma_moved(files, from, to, p);
    let q = carried(p, from, to);
    assert forall|k: int| 0 <= k < rest.len() implies spares(#[trigger] rest[k], q) by {
        assert(rest[k] == steps[k + 1]);
    }
    lemma_spared(rest, effects(first, files), q);
}

/// Retention spares the newest backups: their archives and sidecars stay as
/// they are.
pub proof fn law_retention_spares_the_newest(
    backups: Seq<char>,
    archives: Seq<Seq<char>>,
    keep: nat,
    apply: bool,
    files: Files,
    i: int,
)
    requires
        0 <= i < archives.len(),
        i < keep,
        forall|j: int|
            0 <= j < archives.len() ==> is_relative(#[trigger] archives[j]) && text::ends_with(
                archives[j],
                ".tar.gz"@,
            ),
        forall|j: int, k: int|
            0 <= j < k < archives.len() ==> #[trigger] archives[j] != #[trigger] archives[k],
    ensures
        ({
            let after = effects(schedule::prune_steps(backups, archives, keep, apply), files);
            let archive = path::below(backups, archives[i]);
            same_at(after, files, archive) && same_at(
                after,
                files,
                backup::sidecar_path(archive),
            )
        }),
{
    let steps = schedule::prune_steps(backups, archives, keep, apply);
    let archive = path::below(backups, archives[i]);
    let sidecar = backup::sidecar_path(archive);
    schedule::law_prune_keeps_the_newest(backups, archives, keep, apply);
    assert forall|k: int| 0 <= k < steps.len() implies spares(#[trigger] steps[k], archive)
        && spares(steps[k], sidecar) by {
        if plan::touches_files(steps[k]) {
            let j = choose|j: int|
                keep <= j < archives.len() && {
                    let other = path::below(backups, #[trigger] archives[j]);
                    ||| steps[k] == StepView::RemoveFile { path: other }
                    ||| steps[k] == StepView::RemoveFile { path: backup::sidecar_path(other) }
                };
            lemma_backups_apart(backups, archives[i], archives[j]);
        }
    }
    lemma_spared(steps, files, archive);
    lemma_spared(steps, files, sidecar);
}

/// Two archives of a directory share neither their paths nor their sidecars,
/// and neither's sidecar is the other.
proof fn lemma_backups_apart(backups: Seq<char>, x: Seq<char>, y: Seq<char>)
    requires
        is_relative(x),
        is_relative(y),
        text::ends_with(x, ".tar.gz"@),
        text::ends_with(y, ".tar.gz"@),
        x != y,
    ensures
        ({
            let a = path::below(backups, x);
            let b = path::below(backups, y);
            &&& a != b
            &&& backup::sidecar_path(a) != b
            &&& a != backup::sidecar_path(b)
            &&& backup::sidecar_path(a) != backup::sidecar_path(b)
        }),
{
    reveal_strlit(".tar.gz");
    reveal_strlit(".json");
    let a = path::below(backups, x);
    let b = path::below(backups, y);
    lemma_below_differs(backups, x, y);
    lemma_below(backups, x);
    lemma_below(backups, y);
    lemma_still_ends(stem(backups), x);
    lemma_still_ends(stem(backups), y);
    let sa = backup::sidecar_path(a);
    let sb = backup::sidecar_path(b);
    assert(sa.last() == 'n');
    assert(sb.last() == 'n');
    assert(a.last() == 'z');
    assert(b.last() == 'z');
    if sa == sb {
        assert(sa.take(sa.len() - 5) =~= a.take(a.len() - 7));
        assert(sb.take(sb.len() - 5) =~= b.take(b.len() - 7));
        assert(a =~= a.take(a.len() - 7) + ".tar.gz"@) by {
            assert(a =~= a.take(a.len() - 7) + a.skip(a.len() - 7));
        }
        assert(b =~= b.take(b.len() - 7) + ".tar.gz"@) by {
            assert(b =~= b.take(b.len() - 7) + b.skip(b.len() - 7));
        }
    }
}

proof fn lemma_still_ends(s: Seq<char>, x: Seq<char>)
    requires
        text::ends_with(x, ".tar.gz"@),
    ensures
        text::ends_with(s + x, ".tar.gz"@),
        (s + x).len() >= 7,
        (s + x).last() == 'z',
{
    reveal_strlit(".tar.gz");
    assert((s + x).skip((s + x).len() - 7) =~= x.skip(x.len() - 7));
    assert(x.skip(x.len() - 7).last() == 'z');
}

// ---------------------------------------------------------------------------
// Scratch directories.
// ---------------------------------------------------------------------------

/// A scratch directory is unique: one whose name is not among those that are
/// there has another path than any of them.
pub proof fn law_scratch_directories_differ(
    temp: Seq<char>,
    present: Seq<Seq<char>>,
    stem: Seq<char>,
    epoch: nat,
    process: nat,
    k: nat,
    other: Seq<char>,
)
    requires
        is_relative(other),
        is_relative(stem + "-"@),
        plan::is_first_free(present, stem, epoch, process, k),
        present.contains(other),
    ensures
        path::below(temp, plan::scratch_name(stem, epoch, process, k)) != path::below(temp, other),
{
    reveal_strlit("-");
    reveal_strlit("/");
    let name = plan::scratch_name(stem, epoch, process, k);
    let head = stem + "-"@;
    assert(name.take(1) =~= head.take(1));
    lemma_below_differs(temp, name, other);
}

} // verus!
