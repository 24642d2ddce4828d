//! The manifest of a restored deployment: its journals move under the tenant
//! and its name becomes the tenant's.

use vstd::prelude::*;
use vstd::slice::*;
use vstd::string::*;

use crate::manifest;
use crate::manifest::name_line_value;
use crate::text;
use crate::text::{
    begins, cat3, cat4, cat5, chars_of, ends, every, joined, lead_of, lines_of, position,
    text_of, Class,
};

verus! {

/// What the value of a `state_file:` key names.
pub enum Aim {
    /// A journal at the root of the deployment.
    Root(Seq<char>),
    /// The journal of a service under `run/`.
    Run(Seq<char>),
    /// A file of a tenant.
    Tenant(Seq<char>),
    /// Anything else.
    Other,
}

/// What the text after a `state_file:` key names, and how much of the text
/// says so. Blanks may stand before it.
pub open spec fn aim(value: Seq<char>) -> (Aim, int) {
    let w = text::lead(value, Class::Blank);
    let t = value.skip(w);
    if text::starts_with(t, "registry-journal.jsonl"@) {
        (Aim::Root("registry-journal.jsonl"@), w + "registry-journal.jsonl"@.len())
    } else if text::starts_with(t, "jp-registry-journal.jsonl"@) {
        (Aim::Root("jp-registry-journal.jsonl"@), w + "jp-registry-journal.jsonl"@.len())
    } else if text::starts_with(t, "tenants/"@) {
        let after = t.skip("tenants/"@.len() as int);
        let n = text::lead(after, Class::Name);
        if n < after.len() && after[n] == '/' {
            (Aim::Tenant(after.take(n)), w + "tenants/"@.len() + n + 1)
        } else {
            (Aim::Other, 0)
        }
    } else if text::starts_with(t, "run/"@) {
        let after = t.skip("run/"@.len() as int);
        match text::find(after, "-journal.jsonl"@) {
            Some(n) => if n > 0 && text::all_in(after.take(n), Class::Service) {
                (Aim::Run(after.take(n)), w + "run/"@.len() + n + "-journal.jsonl"@.len())
            } else {
                (Aim::Other, 0)
            },
            None => (Aim::Other, 0),
        }
    } else {
        (Aim::Other, 0)
    }
}

/// What stands for an aim once the deployment is the tenant.
pub open spec fn rebased(aim: Aim, tenant: Seq<char>) -> Seq<char> {
    match aim {
        Aim::Root(file) => " tenants/"@ + tenant + "/"@ + file,
        Aim::Run(service) => " tenants/"@ + tenant + "/"@ + service + "-journal.jsonl"@,
        Aim::Tenant(_) => " tenants/"@ + tenant + "/"@,
        Aim::Other => Seq::empty(),
    }
}

pub proof fn lemma_aim(value: Seq<char>)
    ensures
        0 <= aim(value).1 <= value.len(),
{
    text::lemma_lead(value, Class::Blank);
    let t = value.skip(text::lead(value, Class::Blank));
    text::lemma_lead(t.skip("tenants/"@.len() as int), Class::Name);
    text::lemma_find(t.skip("run/"@.len() as int), "-journal.jsonl"@);
}

/// The text with the value of every `state_file:` key rebased to the tenant.
pub open spec fn rebased_text(s: Seq<char>, tenant: Seq<char>) -> Seq<char>
    decreases s.len(),
{
    match text::find(s, "state_file:"@) {
        None => s,
        Some(i) => {
            let from = i + "state_file:"@.len();
            let value = s.skip(from);
            proof {
                reveal_strlit("state_file:");
                text::lemma_find(s, "state_file:"@);
                lemma_aim(value);
            }
            s.take(from) + rebased(aim(value).0, tenant) + rebased_text(
                value.skip(aim(value).1),
                tenant,
            )
        },
    }
}

/// What the beginning of a text names, how it reads once rebased, and how
/// much of the text it takes.
fn rebase_value(value: &[char], tenant: &str) -> (r: (String, usize))
    ensures
        r.0@ == rebased(aim(value@).0, tenant@),
        r.1 == aim(value@).1,
        r.1 <= value@.len(),
{
    proof {
        lemma_aim(value@);
    }
    let w = lead_of(value, &Class::Blank);
    let t = slice_subrange(value, w, value.len());
    assert(t@ =~= value@.skip(w as int));
    let root = chars_of("registry-journal.jsonl");
    if begins(t, root.as_slice()) {
        return (cat4(" tenants/", tenant, "/", "registry-journal.jsonl"), w + root.len());
    }
    let peer = chars_of("jp-registry-journal.jsonl");
    if begins(t, peer.as_slice()) {
        return (cat4(" tenants/", tenant, "/", "jp-registry-journal.jsonl"), w + peer.len());
    }
    let tenants = chars_of("tenants/");
    if begins(t, tenants.as_slice()) {
        let after = slice_subrange(t, tenants.len(), t.len());
        assert(after@ =~= t@.skip("tenants/"@.len() as int));
        let n = lead_of(after, &Class::Name);
        if n < after.len() && after[n] == '/' {
            return (cat3(" tenants/", tenant, "/"), w + tenants.len() + n + 1);
        }
        return (String::new(), 0);
    }
    let run = chars_of("run/");
    if begins(t, run.as_slice()) {
        let after = slice_subrange(t, run.len(), t.len());
        assert(after@ =~= t@.skip("run/"@.len() as int));
        let suffix = chars_of("-journal.jsonl");
        if let Some(n) = position(after, suffix.as_slice()) {
            proof {
                text::lemma_find(after@, suffix@);
            }
            let service = slice_subrange(after, 0, n);
            assert(service@ =~= after@.take(n as int));
            if n > 0 && every(service, &Class::Service) {
                return (
                    cat5(" tenants/", tenant, "/", text_of(service).as_str(), "-journal.jsonl"),
                    w + run.len() + n + suffix.len(),
                );
            }
        }
        return (String::new(), 0);
    }
    (String::new(), 0)
}

/// The manifest rewrite: the root journals and every run/ journal move under
/// the tenant, and any tenant-qualified state file is rebased to the restored
/// tenant.
pub fn rewrite_state_files(manifest: &str, tenant: &str) -> (r: String)
    ensures
        r@ == rebased_text(manifest@, tenant@),
{
    let chars = chars_of(manifest);
    let all = chars.as_slice();
    let key = chars_of("state_file:");
    let mut out = String::new();
    let mut rest: &[char] = all;
    assert(out@ + rebased_text(rest@, tenant@) =~= rebased_text(manifest@, tenant@));
    loop
        invariant
            key@ == "state_file:"@,
            out@ + rebased_text(rest@, tenant@) == rebased_text(manifest@, tenant@),
        decreases rest@.len(),
    {
        let i: usize = match position(rest, key.as_slice()) {
            Some(i) => i,
            None => {
                out.append(text_of(rest).as_str());
                return out;
            },
        };
        proof {
            reveal_strlit("state_file:");
            text::lemma_find(rest@, key@);
        }
        let ghost before = out@;
        let ghost whole = rest@;
        let total: usize = rest.len();
        assert(i + key@.len() <= total);
        let from = i + key.len();
        let head = slice_subrange(rest, 0, from);
        let value = slice_subrange(rest, from, rest.len());
        assert(head@ =~= rest@.take(from as int));
        assert(value@ =~= rest@.skip(from as int));
        let (new, n) = rebase_value(value, tenant);
        out.append(text_of(head).as_str());
        out.append(new.as_str());
        rest = slice_subrange(value, n, value.len());
        assert(rest@ =~= value@.skip(n as int));
        assert(out@ + rebased_text(rest@, tenant@) =~= before + rebased_text(whole, tenant@));
    }
}

/// A name line with the tenant's name in place of its own: what stands before
/// the name stays.
pub open spec fn renamed_line(line: Seq<char>, tenant: Seq<char>) -> Seq<char> {
    let ws = text::lead(line, Class::Space);
    let after = line.skip(ws + "name:"@.len());
    line.take(ws) + "name:"@ + after.take(text::lead(after, Class::Blank)) + tenant
}

/// The lines with the first name line renamed.
pub open spec fn renamed_lines(lines: Seq<Seq<char>>, tenant: Seq<char>) -> Seq<Seq<char>>
    decreases lines.len(),
{
    if lines.len() == 0 {
        lines
    } else if manifest::name_value(lines[0]) is Some {
        seq![renamed_line(lines[0], tenant)] + lines.skip(1)
    } else {
        seq![lines[0]] + renamed_lines(lines.skip(1), tenant)
    }
}

/// What a text ends with: a line feed, or nothing.
pub open spec fn line_end(s: Seq<char>) -> Seq<char> {
    if text::ends_with(s, "\n"@) {
        "\n"@
    } else {
        Seq::empty()
    }
}

/// The text with its first name line renamed.
pub open spec fn renamed_text(s: Seq<char>, tenant: Seq<char>) -> Seq<char> {
    text::join(renamed_lines(text::lines(s), tenant), "\n"@) + line_end(s)
}

fn rename_line(line: &str, tenant: &str) -> (r: String)
    requires
        manifest::name_value(line@) is Some,
    ensures
        r@ == renamed_line(line@, tenant@),
{
    let chars = chars_of(line);
    let all = chars.as_slice();
    let ws = lead_of(all, &Class::Space);
    proof {
        reveal_strlit("name:");
        assert(line@.skip(ws as int) == text::trim_start(line@));
    }
    let total: usize = all.len();
    assert(ws + 5 <= total);
    let indent = slice_subrange(all, 0, ws);
    assert(indent@ =~= line@.take(ws as int));
    let after = slice_subrange(all, ws + 5, all.len());
    assert(after@ =~= line@.skip(ws + "name:"@.len()));
    let blank = lead_of(after, &Class::Blank);
    let inner = slice_subrange(after, 0, blank);
    assert(inner@ =~= after@.take(blank as int));
    cat4(text_of(indent).as_str(), "name:", text_of(inner).as_str(), tenant)
}

/// The first `name: <token>` line is rebased to the restored tenant.
pub fn rewrite_name(manifest: &str, tenant: &str) -> (r: String)
    ensures
        r@ == renamed_text(manifest@, tenant@),
{
    let chars = chars_of(manifest);
    let lines = lines_of(chars.as_slice());
    let ghost all = text::lines(manifest@);
    let mut out: Vec<String> = Vec::new();
    let mut i: usize = 0;
    let mut done = false;
    assert(all.skip(0) =~= all);
    assert(text::views(out@) + renamed_lines(all, tenant@) =~= renamed_lines(all, tenant@));
    while i < lines.len()
        invariant
            i <= lines.len(),
            text::views(lines@) == all,
            renamed_lines(all, tenant@) == text::views(out@) + if done {
                all.skip(i as int)
            } else {
                renamed_lines(all.skip(i as int), tenant@)
            },
        decreases lines.len() - i,
    {
        let ghost before = text::views(out@);
        let ghost rest = all.skip(i as int);
        assert(rest[0] == lines@[i as int]@);
        assert(rest.skip(1) =~= all.skip(i + 1));
        assert(rest =~= seq![rest[0]] + rest.skip(1));
        if !done && name_line_value(lines[i].as_str()).is_some() {
            out.push(rename_line(lines[i].as_str(), tenant));
            done = true;
        } else {
            out.push(lines[i].clone());
        }
        assert(text::views(out@) =~= before + seq![text::views(out@).last()]);
        assert(renamed_lines(all, tenant@) =~= text::views(out@) + if done {
            all.skip(i + 1)
        } else {
            renamed_lines(all.skip(i + 1), tenant@)
        });
        i += 1;
    }
    assert(renamed_lines(all, tenant@) =~= text::views(out@));
    let mut r = joined(out.as_slice(), "\n");
    if ends(chars.as_slice(), chars_of("\n").as_slice()) {
        r.append("\n");
    }
    r
}

// ---------------------------------------------------------------------------
// No journal of the origin is left.
// ---------------------------------------------------------------------------

/// A character at which a value ends, whatever it names.
spec fn stop(c: char) -> bool {
    c == ':' || c == '\n' || c == '\r'
}

/// The text holds no such character.
spec fn stop_free(s: Seq<char>) -> bool {
    forall|i: int| 0 <= i < s.len() ==> !stop(#[trigger] s[i])
}

/// The text stops at `m`.
spec fn stops(s: Seq<char>, m: int) -> bool {
    m == s.len() || (0 <= m < s.len() && stop(s[m]))
}

/// The two texts agree up to `m`, where both stop.
spec fn agree(s: Seq<char>, t: Seq<char>, m: int) -> bool {
    &&& 0 <= m <= s.len()
    &&& m <= t.len()
    &&& stops(s, m)
    &&& stops(t, m)
    &&& forall|i: int| 0 <= i < m ==> #[trigger] s[i] == t[i]
}

proof fn lemma_agree_starts(s: Seq<char>, t: Seq<char>, m: int, p: Seq<char>)
    requires
        agree(s, t, m),
        stop_free(p),
    ensures
        text::starts_with(s, p) == text::starts_with(t, p),
        text::starts_with(s, p) ==> p.len() <= m,
{
    if text::starts_with(s, p) {
        if p.len() > m {
            assert(s.take(p.len() as int)[m] == p[m]);
        }
        assert(t.take(p.len() as int) =~= s.take(p.len() as int));
    }
    if text::starts_with(t, p) {
        if p.len() > m {
            assert(t.take(p.len() as int)[m] == p[m]);
        }
        assert(t.take(p.len() as int) =~= s.take(p.len() as int));
    }
}

proof fn lemma_agree_lead(s: Seq<char>, t: Seq<char>, m: int, k: Class)
    requires
        agree(s, t, m),
        forall|c: char| k.has(c) ==> !stop(c),
    ensures
        text::lead(s, k) == text::lead(t, k),
        text::lead(s, k) <= m,
{
    text::lemma_lead(s, k);
    let n = text::lead(s, k);
    if n > m {
        assert(k.has(s[m]));
    }
    assert forall|i: int| 0 <= i < n implies k.has(#[trigger] t[i]) by {
        assert(k.has(s[i]));
    }
    if n < m {
        assert(s[n] == t[n]);
    }
    text::lemma_lead_is(t, k, n);
}

proof fn lemma_agree_skip(s: Seq<char>, t: Seq<char>, m: int, n: int)
    requires
        agree(s, t, m),
        0 <= n <= m,
    ensures
        agree(s.skip(n), t.skip(n), m - n),
{
    assert forall|i: int| 0 <= i < m - n implies #[trigger] s.skip(n)[i] == t.skip(n)[i] by {
        assert(s[i + n] == t[i + n]);
    }
}

/// The text before the first `-journal.jsonl` is a service name.
spec fn is_run(s: Seq<char>) -> bool {
    text::find(s, "-journal.jsonl"@) matches Some(n) && n > 0 && text::all_in(
        s.take(n),
        Class::Service,
    )
}

proof fn lemma_agree_run(s: Seq<char>, t: Seq<char>, m: int)
    requires
        agree(s, t, m),
        is_run(s),
    ensures
        is_run(t),
        text::find(t, "-journal.jsonl"@) == text::find(s, "-journal.jsonl"@),
        t.take(text::find(s, "-journal.jsonl"@)->0) == s.take(
            text::find(s, "-journal.jsonl"@)->0,
        ),
{
    reveal_strlit("-journal.jsonl");
    let p = "-journal.jsonl"@;
    text::lemma_find(s, p);
    let n = text::find(s, p)->0;
    if m < n {
        assert(Class::Service.has(s.take(n)[m]));
    } else if m < n + p.len() {
        assert(s.subrange(n, n + p.len())[m - n] == p[m - n]);
    }
    assert(t.subrange(n, n + p.len()) =~= s.subrange(n, n + p.len()));
    assert forall|j: int| j < n implies !text::occurs_at(t, p, j) by {
        if 0 <= j {
            assert(!text::occurs_at(s, p, j));
            assert(t.subrange(j, j + p.len()) =~= s.subrange(j, j + p.len()));
        }
    }
    text::lemma_find_is(t, p, n);
    assert(t.take(n) =~= s.take(n));
}

/// What a value names lies before the place where the text stops.
proof fn lemma_agree_aim(s: Seq<char>, t: Seq<char>, m: int)
    requires
        agree(s, t, m),
    ensures
        aim(s) == aim(t),
        aim(s).1 <= m,
{
    reveal_strlit("registry-journal.jsonl");
    reveal_strlit("jp-registry-journal.jsonl");
    reveal_strlit("tenants/");
    reveal_strlit("run/");
    reveal_strlit("-journal.jsonl");
    let w = text::lead(s, Class::Blank);
    text::lemma_lead(s, Class::Blank);
    lemma_agree_lead(s, t, m, Class::Blank);
    lemma_agree_skip(s, t, m, w);
    let s1 = s.skip(w);
    let t1 = t.skip(w);
    let m1 = m - w;
    lemma_agree_starts(s1, t1, m1, "registry-journal.jsonl"@);
    lemma_agree_starts(s1, t1, m1, "jp-registry-journal.jsonl"@);
    lemma_agree_starts(s1, t1, m1, "tenants/"@);
    lemma_agree_starts(s1, t1, m1, "run/"@);
    if text::starts_with(s1, "registry-journal.jsonl"@) {
    } else if text::starts_with(s1, "jp-registry-journal.jsonl"@) {
    } else if text::starts_with(s1, "tenants/"@) {
        let n = "tenants/"@.len() as int;
        lemma_agree_skip(s1, t1, m1, n);
        let s2 = s1.skip(n);
        let t2 = t1.skip(n);
        text::lemma_lead(s2, Class::Name);
        lemma_agree_lead(s2, t2, m1 - n, Class::Name);
        let k = text::lead(s2, Class::Name);
        if k < m1 - n {
            assert(s2[k] == t2[k]);
        }
        assert(s2.take(k) =~= t2.take(k));
    } else if text::starts_with(s1, "run/"@) {
        let n = "run/"@.len() as int;
        lemma_agree_skip(s1, t1, m1, n);
        let s2 = s1.skip(n);
        let t2 = t1.skip(n);
        let m2 = m1 - n;
        let p = "-journal.jsonl"@;
        if is_run(s2) {
            lemma_agree_run(s2, t2, m2);
            text::lemma_find(s2, p);
            let k = text::find(s2, p)->0;
            if m2 < k {
                assert(Class::Service.has(s2.take(k)[m2]));
            } else if m2 < k + p.len() {
                assert(s2.subrange(k, k + p.len())[m2 - k] == p[m2 - k]);
            }
        } else if is_run(t2) {
            lemma_agree_run(t2, s2, m2);
        }
    }
}

/// A rebased value names the tenant.
proof fn lemma_aim_of_rebased(tenant: Seq<char>, tail: Seq<char>)
    requires
        text::all_in(tenant, Class::Name),
    ensures
        aim(" tenants/"@ + tenant + "/"@ + tail) == (
            Aim::Tenant(tenant),
            (" tenants/"@ + tenant + "/"@).len() as int,
        ),
{
    reveal_strlit("registry-journal.jsonl");
    reveal_strlit("jp-registry-journal.jsonl");
    reveal_strlit("tenants/");
    reveal_strlit(" tenants/");
    reveal_strlit("/");
    let x = " tenants/"@ + tenant + "/"@ + tail;
    assert(x[0] == ' ' && x[1] == 't');
    text::lemma_lead_is(x, Class::Blank, 1);
    let t = x.skip(1);
    assert(t[0] == 't');
    assert(!text::starts_with(t, "registry-journal.jsonl"@)) by {
        if text::starts_with(t, "registry-journal.jsonl"@) {
            assert(t.take("registry-journal.jsonl"@.len() as int)[0] == 'r');
        }
    }
    assert(!text::starts_with(t, "jp-registry-journal.jsonl"@)) by {
        if text::starts_with(t, "jp-registry-journal.jsonl"@) {
            assert(t.take("jp-registry-journal.jsonl"@.len() as int)[0] == 'j');
        }
    }
    assert(t.take("tenants/"@.len() as int) =~= "tenants/"@);
    let after = t.skip("tenants/"@.len() as int);
    assert(after =~= tenant + "/"@ + tail);
    text::lemma_lead_is(after, Class::Name, tenant.len() as int);
    assert(after.take(tenant.len() as int) =~= tenant);
}

/// What a rebased value looks like at its end.
proof fn lemma_rebased_shape(value: Seq<char>, tenant: Seq<char>)
    requires
        text::all_in(tenant, Class::Name),
        !(aim(value).0 is Other),
    ensures
        stop_free(rebased(aim(value).0, tenant)),
        rebased(aim(value).0, tenant).len() >= 2,
        ({
            let r = rebased(aim(value).0, tenant);
            r.last() == '/' || (r.last() == 'l' && r[r.len() - 2] == 'n')
        }),
        exists|tail: Seq<char>|
            rebased(aim(value).0, tenant) == #[trigger] (" tenants/"@ + tenant + "/"@ + tail),
{
    reveal_strlit("registry-journal.jsonl");
    reveal_strlit("jp-registry-journal.jsonl");
    reveal_strlit("-journal.jsonl");
    reveal_strlit(" tenants/");
    reveal_strlit("/");
    let r = rebased(aim(value).0, tenant);
    let head = " tenants/"@ + tenant + "/"@;
    assert(stop_free(head)) by {
        assert forall|i: int| 0 <= i < head.len() implies !stop(#[trigger] head[i]) by {
            if " tenants/"@.len() <= i < " tenants/"@.len() + tenant.len() {
                assert(head[i] == tenant[i - " tenants/"@.len()]);
            }
        }
    }
    match aim(value).0 {
        Aim::Root(file) => {
            assert(r =~= head + file);
        },
        Aim::Run(service) => {
            let tail = service + "-journal.jsonl"@;
            assert(r =~= head + tail);
            assert(stop_free(tail)) by {
                assert forall|i: int| 0 <= i < tail.len() implies !stop(#[trigger] tail[i]) by {
                    if i < service.len() {
                        assert(tail[i] == service[i]);
                    }
                }
            }
        },
        Aim::Tenant(_) => {
            assert(r =~= head + Seq::<char>::empty());
        },
        Aim::Other => {},
    }
}

/// Rebasing changes nothing before the first `state_file:` key and nothing
/// in it.
proof fn lemma_rebased_text_head(s: Seq<char>, tenant: Seq<char>)
    ensures
        match text::find(s, "state_file:"@) {
            None => rebased_text(s, tenant) == s,
            Some(i) => agree(rebased_text(s, tenant), s, i + "state_file:"@.len() - 1),
        },
{
    reveal_strlit("state_file:");
    text::lemma_find(s, "state_file:"@);
    if text::find(s, "state_file:"@) is Some {
        let i = text::find(s, "state_file:"@)->0;
        let from = i + "state_file:"@.len();
        let out = rebased_text(s, tenant);
        assert(s.subrange(i, from)[from - 1 - i] == ':');
        assert forall|j: int| 0 <= j < from implies #[trigger] out[j] == s[j] by {
            assert(out[j] == s.take(from)[j]);
        }
    }
}

/// A restored deployment never writes the origin's journals: in the rewritten
/// manifest, a `state_file:` key names a file of the restored tenant, or
/// something that the rules do not recognize; never a journal at the root, a
/// journal under `run/` or a file of another tenant.
pub proof fn law_no_origin_journal_left(manifest: Seq<char>, tenant: Seq<char>, k: int)
    requires
        text::all_in(tenant, Class::Name),
        text::occurs_at(rebased_text(manifest, tenant), "state_file:"@, k),
    ensures
        ({
            let named = aim(
                rebased_text(manifest, tenant).skip(k + "state_file:"@.len()),
            ).0;
            named is Other || named == Aim::Tenant(tenant)
        }),
    decreases manifest.len(),
{
    reveal_strlit("state_file:");
    let key = "state_file:"@;
    let out = rebased_text(manifest, tenant);
    text::lemma_find(manifest, key);
    let i = text::find(manifest, key)->0;
    let from = i + key.len();
    let value = manifest.skip(from);
    lemma_aim(value);
    let rest = value.skip(aim(value).1);
    let a = manifest.take(from);
    let r = rebased(aim(value).0, tenant);
    let b = rebased_text(rest, tenant);
    assert(out == a + r + b);
    let at = out.subrange(k, k + key.len());
    assert(manifest.subrange(i, from) == key);
    if aim(value).0 is Other {
        assert(r.len() == 0);
        assert(rest =~= value);
    } else {
        lemma_rebased_shape(value, tenant);
    }
    if k < i {
        assert(manifest.subrange(k, k + key.len()) =~= at);
        assert(text::occurs_at(manifest, key, k));
    } else if k == i {
        assert(out.skip(from) =~= r + b);
        if aim(value).0 is Other {
            assert(r + b =~= b);
            lemma_rebased_text_head(value, tenant);
            if text::find(value, key) is Some {
                lemma_agree_aim(b, value, text::find(value, key)->0 + key.len() - 1);
            }
        } else {
            let tail = choose|tail: Seq<char>|
                r == #[trigger] (" tenants/"@ + tenant + "/"@ + tail);
            assert(r + b =~= " tenants/"@ + tenant + "/"@ + (tail + b));
            lemma_aim_of_rebased(tenant, tail + b);
        }
    } else if k < from {
        assert(out[from - 1] == manifest.subrange(i, from)[key.len() - 1]);
        assert(at[from - 1 - k] == key[from - 1 - k]);
    } else if k + key.len() <= from + r.len() {
        assert(at[key.len() - 1] == key[key.len() - 1]);
        assert(r[k - from + key.len() - 1] == ':');
    } else if k < from + r.len() {
        let last = from + r.len() - 1;
        assert(out[last] == r.last());
        assert(at[last - k] == key[last - k]);
        if r.last() == 'l' {
            assert(last - k == 8);
            assert(out[last - 1] == r[r.len() - 2]);
            assert(at[7] == key[7]);
        }
    } else {
        let j = k - from - r.len();
        assert(b.subrange(j, j + key.len()) =~= at);
        law_no_origin_journal_left(rest, tenant, j);
        assert(out.skip(k + key.len()) =~= b.skip(j + key.len()));
    }
}

/// Where no key begins within a head, the head stays and the rest is rebased.
proof fn lemma_rebased_after(head: Seq<char>, s: Seq<char>, tenant: Seq<char>)
    requires
        forall|k: int| 0 <= k < head.len() ==> !text::occurs_at(head + s, "state_file:"@, k),
    ensures
        rebased_text(head + s, tenant) == head + rebased_text(s, tenant),
{
    reveal_strlit("state_file:");
    let key = "state_file:"@;
    let n = head.len() as int;
    let all = head + s;
    text::lemma_find(s, key);
    text::lemma_find(all, key);
    match text::find(s, key) {
        Some(i) => {
            assert(all.subrange(n + i, n + i + key.len()) =~= s.subrange(i, i + key.len()));
            assert forall|j: int| j < n + i implies !text::occurs_at(all, key, j) by {
                if j >= n && text::occurs_at(all, key, j) {
                    assert(s.subrange(j - n, j - n + key.len()) =~= all.subrange(
                        j,
                        j + key.len(),
                    ));
                    assert(text::occurs_at(s, key, j - n));
                }
            }
            text::lemma_find_is(all, key, n + i);
            let from = i + key.len();
            assert(all.skip(n + from) =~= s.skip(from));
            assert(all.take(n + from) =~= head + s.take(from));
            assert(rebased_text(all, tenant) =~= head + rebased_text(s, tenant));
        },
        None => {
            if text::find(all, key) is Some {
                let j = text::find(all, key)->0;
                assert(j >= n);
                assert(s.subrange(j - n, j - n + key.len()) =~= all.subrange(j, j + key.len()));
                assert(text::occurs_at(s, key, j - n));
            }
        },
    }
}

/// What a rebased value holds after the tenant's directory.
spec fn rebased_tail(aim: Aim) -> Seq<char> {
    match aim {
        Aim::Root(file) => file,
        Aim::Run(service) => service + "-journal.jsonl"@,
        _ => Seq::empty(),
    }
}

/// No key begins within the tail of a rebased value.
proof fn lemma_rebased_tail(value: Seq<char>, tenant: Seq<char>, s: Seq<char>)
    requires
        text::all_in(tenant, Class::Name),
        !(aim(value).0 is Other),
    ensures
        rebased(aim(value).0, tenant) == " tenants/"@ + tenant + "/"@ + rebased_tail(
            aim(value).0,
        ),
        forall|k: int|
            0 <= k < rebased_tail(aim(value).0).len() ==> !text::occurs_at(
                rebased_tail(aim(value).0) + s,
                "state_file:"@,
                k,
            ),
{
    reveal_strlit("state_file:");
    reveal_strlit("registry-journal.jsonl");
    reveal_strlit("jp-registry-journal.jsonl");
    reveal_strlit("-journal.jsonl");
    let key = "state_file:"@;
    let r = rebased(aim(value).0, tenant);
    let tail = rebased_tail(aim(value).0);
    let head = " tenants/"@ + tenant + "/"@;
    lemma_rebased_shape(value, tenant);
    assert(r =~= head + tail);
    let all = tail + s;
    assert forall|k: int| 0 <= k < tail.len() implies !text::occurs_at(all, key, k) by {
        if text::occurs_at(all, key, k) {
            let at = all.subrange(k, k + key.len());
            let last = tail.len() - 1;
            assert(at == key);
            if k + key.len() <= tail.len() {
                assert(at[key.len() - 1] == ':');
                assert(tail[k + key.len() - 1] == ':');
                assert(r[head.len() + k + key.len() - 1] == ':');
            } else {
                assert(all[last] == 'l');
                assert(at[last - k] == key[last - k]);
                assert(last - k == 8);
                assert(all[last - 1] == 'n');
                assert(at[7] == key[7]);
            }
        }
    }
}

/// The last rebase wins: a manifest that was rebased to one tenant and then to
/// another one is as if it had been rebased to the other one alone. Rebasing
/// to the same tenant again changes nothing.
pub proof fn law_last_rebase_wins(manifest: Seq<char>, a: Seq<char>, b: Seq<char>)
    requires
        text::all_in(a, Class::Name),
        text::all_in(b, Class::Name),
    ensures
        rebased_text(rebased_text(manifest, a), b) == rebased_text(manifest, b),
    decreases manifest.len(),
{
    reveal_strlit("state_file:");
    let key = "state_file:"@;
    text::lemma_find(manifest, key);
    if text::find(manifest, key) is Some {
        let i = text::find(manifest, key)->0;
        let from = i + key.len();
        let value = manifest.skip(from);
        lemma_aim(value);
        let named = aim(value).0;
        let rest = value.skip(aim(value).1);
        let head = manifest.take(from);
        let done = rebased_text(rest, a);
        let out = rebased_text(manifest, a);
        let next = rebased(named, a) + done;
        assert(out =~= head + next);
        assert(out.subrange(i, from) =~= manifest.subrange(i, from));
        assert forall|j: int| j < i implies !text::occurs_at(out, key, j) by {
            if 0 <= j && text::occurs_at(out, key, j) {
                assert(manifest.subrange(j, j + key.len()) =~= out.subrange(j, j + key.len()));
                assert(text::occurs_at(manifest, key, j));
            }
        }
        text::lemma_find_is(out, key, i);
        assert(out.take(from) =~= head);
        assert(out.skip(from) =~= next);
        law_last_rebase_wins(rest, a, b);
        if named is Other {
            assert(rest =~= value);
            assert(next =~= done);
            lemma_rebased_text_head(value, a);
            if text::find(value, key) is Some {
                lemma_agree_aim(done, value, text::find(value, key)->0 + key.len() - 1);
            }
            assert(next.skip(0) =~= done);
        } else {
            let tail = rebased_tail(named);
            let dir = " tenants/"@ + a + "/"@;
            lemma_rebased_tail(value, a, done);
            lemma_rebased_tail(value, b, done);
            assert(next =~= dir + (tail + done));
            lemma_aim_of_rebased(a, tail + done);
            assert(next.skip(dir.len() as int) =~= tail + done);
            lemma_rebased_after(tail, done, b);
            assert(rebased_text(out, b) =~= rebased_text(manifest, b));
        }
    }
}

// ---------------------------------------------------------------------------
// The restored deployment bears the tenant's name.
// ---------------------------------------------------------------------------

proof fn lemma_name_of_renamed(line: Seq<char>, tenant: Seq<char>)
    requires
        manifest::name_value(line) is Some,
        tenant.len() > 0,
        text::all_in(tenant, Class::Name),
    ensures
        manifest::name_value(renamed_line(line, tenant)) == Some(tenant),
        text::strip_return(renamed_line(line, tenant)) == renamed_line(line, tenant),
        text::all_in(line, Class::Except('\n')) ==> text::all_in(
            renamed_line(line, tenant),
            Class::Except('\n'),
        ),
{
    reveal_strlit("name:");
    text::lemma_lead(line, Class::Space);
    let ws = text::lead(line, Class::Space);
    let after = line.skip(ws + "name:"@.len());
    text::lemma_lead(after, Class::Blank);
    let inner = after.take(text::lead(after, Class::Blank));
    let out = renamed_line(line, tenant);
    assert(out == line.take(ws) + "name:"@ + inner + tenant);
    assert(text::Class::Name.has(tenant.last()));
    assert(out.last() == tenant.last());
    text::lemma_lead_is(out, Class::Space, ws);
    let rest = out.skip(ws);
    assert(rest =~= "name:"@ + inner + tenant);
    assert(rest.take("name:"@.len() as int) =~= "name:"@);
    let value = rest.skip("name:"@.len() as int);
    assert(value =~= inner + tenant);
    assert(text::Class::Name.has(tenant[0]));
    assert forall|i: int| 0 <= i < inner.len() implies Class::Space.has(#[trigger] value[i]) by {
        assert(Class::Blank.has(after[i]));
    }
    text::lemma_lead_is(value, Class::Space, inner.len() as int);
    let t = text::trim_start(value);
    assert(t =~= tenant);
    text::lemma_trail_is(t, Class::Space, 0);
    assert(text::trim(value) =~= tenant);
    if text::all_in(line, Class::Except('\n')) {
        assert forall|i: int| 0 <= i < out.len() implies Class::Except('\n').has(
            #[trigger] out[i],
        ) by {
            let n = ws + "name:"@.len();
            if i < ws {
                assert(out[i] == line[i]);
            } else if n <= i < n + inner.len() {
                assert(out[i] == line[i]);
            } else if n + inner.len() <= i {
                assert(out[i] == tenant[i - n - inner.len()]);
                assert(Class::Name.has(out[i]));
            }
        }
    }
}

/// A carriage return at its end makes no name line of a line.
proof fn lemma_name_without_return(line: Seq<char>)
    ensures
        manifest::name_value(line) is None ==> manifest::name_value(text::strip_return(line)) is None,
{
    let x = text::strip_return(line);
    if x != line && manifest::name_value(x) is Some {
        reveal_strlit("name:");
        text::lemma_lead(x, Class::Space);
        let ws = text::lead(x, Class::Space);
        let rest = text::trim_start(x);
        assert forall|i: int| 0 <= i < ws implies Class::Space.has(#[trigger] line[i]) by {
            assert(line[i] == x[i]);
        }
        assert(line[ws] == x[ws]);
        text::lemma_lead_is(line, Class::Space, ws);
        let full = text::trim_start(line);
        assert(full =~= rest.push('\r'));
        assert(full.take("name:"@.len() as int) =~= rest.take("name:"@.len() as int));
        let y = rest.skip("name:"@.len() as int);
        let z = full.skip("name:"@.len() as int);
        assert(z =~= y.push('\r'));
        text::lemma_lead(y, Class::Space);
        let n = text::lead(y, Class::Space);
        let t = text::trim_start(y);
        text::lemma_trail(t, Class::Space);
        assert(n < y.len());
        assert forall|i: int| 0 <= i < n implies Class::Space.has(#[trigger] z[i]) by {
            assert(z[i] == y[i]);
        }
        assert(z[n] == y[n]);
        text::lemma_lead_is(z, Class::Space, n);
        let u = text::trim_start(z);
        assert(u =~= t.push('\r'));
        assert(u.drop_last() =~= t);
        assert(text::trail(u, Class::Space) == 1 + text::trail(t, Class::Space));
        assert(text::trim(z) =~= text::trim(y));
    }
}

/// The text with every line ended by a line feed alone.
spec fn relined_text(s: Seq<char>) -> Seq<char> {
    text::join(text::lines(s), "\n"@) + line_end(s)
}

/// How renaming works on a text line by line.
proof fn lemma_renamed_first(s: Seq<char>, tenant: Seq<char>)
    requires
        s.len() > 0,
    ensures
        ({
            let n = text::lead(s, Class::Except('\n'));
            let line = text::strip_return(s.take(n));
            let rest = s.skip(n + 1);
            let out = renamed_text(s, tenant);
            if n >= s.len() {
                out == if manifest::name_value(s) is Some {
                    renamed_line(s, tenant)
                } else {
                    s
                }
            } else if manifest::name_value(line) is Some {
                out == renamed_line(line, tenant) + "\n"@ + relined_text(rest)
            } else {
                out == line + "\n"@ + renamed_text(rest, tenant)
            }
        }),
{
    reveal_strlit("\n");
    text::lemma_lead(s, Class::Except('\n'));
    let n = text::lead(s, Class::Except('\n'));
    let line = text::strip_return(s.take(n));
    let rest = s.skip(n + 1);
    let out = renamed_text(s, tenant);
    if n >= s.len() {
        assert(text::lines(s) =~= seq![s]);
        assert(text::lines(s).skip(1) =~= Seq::<Seq<char>>::empty());
        assert(!text::ends_with(s, "\n"@)) by {
            if text::ends_with(s, "\n"@) {
                assert(s.skip(s.len() - 1)[0] == '\n');
                assert(Class::Except('\n').has(s[s.len() - 1]));
            }
        }
        let new = renamed_lines(text::lines(s), tenant);
        assert(renamed_lines(Seq::empty(), tenant).len() == 0);
        assert(new.len() == 1);
        assert(out =~= new[0]);
    } else {
        let below = text::lines(rest);
        let all = text::lines(s);
        assert(all[0] == line);
        assert(all.skip(1) =~= below);
        let new = renamed_lines(all, tenant);
        let named = manifest::name_value(line) is Some;
        let first = if named {
            renamed_line(line, tenant)
        } else {
            line
        };
        let others = if named {
            below
        } else {
            renamed_lines(below, tenant)
        };
        assert(new =~= seq![first] + others);
        lemma_renamed_count(below, tenant);
        if rest.len() == 0 {
            assert(others =~= Seq::<Seq<char>>::empty());
            assert(new =~= seq![first]);
            assert(text::ends_with(s, "\n"@)) by {
                assert(s.skip(s.len() - 1) =~= "\n"@);
            }
            assert(!text::ends_with(rest, "\n"@));
            assert(out =~= first + "\n"@ + Seq::<char>::empty());
            assert(renamed_text(rest, tenant) =~= Seq::<char>::empty());
            assert(relined_text(rest) =~= Seq::<char>::empty());
        } else {
            assert(below.len() > 0);
            text::lemma_join_first(first, others, "\n"@);
            assert(line_end(s) == line_end(rest)) by {
                assert(s.skip(s.len() - 1) =~= rest.skip(rest.len() - 1));
            }
            assert(out =~= first + "\n"@ + (text::join(others, "\n"@) + line_end(rest)));
        }
    }
}

proof fn lemma_renamed_count(lines: Seq<Seq<char>>, tenant: Seq<char>)
    ensures
        renamed_lines(lines, tenant).len() == lines.len(),
    decreases lines.len(),
{
    if lines.len() > 0 {
        lemma_renamed_count(lines.skip(1), tenant);
    }
}

/// After the renaming the manifest names the tenant, if it named a deployment
/// before.
pub proof fn law_renamed_bears_the_name(s: Seq<char>, tenant: Seq<char>)
    requires
        tenant.len() > 0,
        text::all_in(tenant, Class::Name),
        manifest::first_name(text::lines(s)) is Some,
    ensures
        manifest::deployment_name(renamed_text(s, tenant)) == tenant,
        manifest::first_name(text::lines(renamed_text(s, tenant))) == Some(tenant),
    decreases s.len(),
{
    text::lemma_lead(s, Class::Except('\n'));
    let n = text::lead(s, Class::Except('\n'));
    let line = text::strip_return(s.take(n));
    let rest = s.skip(n + 1);
    let out = renamed_text(s, tenant);
    lemma_renamed_first(s, tenant);
    if n >= s.len() {
        assert(text::lines(s) =~= seq![s]);
        assert(text::lines(s).skip(1) =~= Seq::<Seq<char>>::empty());
        assert(manifest::first_name(Seq::empty()) is None);
        lemma_name_of_renamed(s, tenant);
        text::lemma_lines_first(out, Seq::empty());
        assert(text::lines(out)[0] == out);
    } else {
        assert(text::lines(s)[0] == line);
        assert(text::lines(s).skip(1) =~= text::lines(rest));
        assert(text::all_in(line, Class::Except('\n'))) by {
            assert forall|i: int| 0 <= i < line.len() implies Class::Except('\n').has(
                #[trigger] line[i],
            ) by {
                assert(line[i] == s[i]);
            }
        }
        if manifest::name_value(line) is Some {
            let new = renamed_line(line, tenant);
            lemma_name_of_renamed(line, tenant);
            text::lemma_lines_first(new, relined_text(rest));
            assert(text::lines(out)[0] == new);
        } else {
            law_renamed_bears_the_name(rest, tenant);
            text::lemma_lines_first(line, renamed_text(rest, tenant));
            lemma_name_without_return(line);
            let below = text::lines(renamed_text(rest, tenant));
            assert(text::lines(out).skip(1) =~= below);
            assert(text::lines(out)[0] == text::strip_return(line));
        }
    }
}

// ---------------------------------------------------------------------------
// The restored manifest as a whole.
// ---------------------------------------------------------------------------

/// A `state_file:` key of the line names a file of the tenant or something
/// that the rules do not recognize.
pub open spec fn settled_line(line: Seq<char>, tenant: Seq<char>) -> bool {
    forall|k: int| #[trigger]
        text::occurs_at(line, "state_file:"@, k) ==> {
            let named = aim(line.skip(k + "state_file:"@.len())).0;
            named is Other || named == Aim::Tenant(tenant)
        }
}

/// Every line of the text is settled.
pub open spec fn settled_text(s: Seq<char>, tenant: Seq<char>) -> bool {
    forall|i: int|
        0 <= i < text::lines(s).len() ==> settled_line(#[trigger] text::lines(s)[i], tenant)
}

/// Rebasing works line by line.
proof fn lemma_rebased_by_line(a: Seq<char>, b: Seq<char>, tenant: Seq<char>)
    requires
        text::all_in(a, Class::Except('\n')),
    ensures
        rebased_text(a + "\n"@ + b, tenant) == rebased_text(a, tenant) + "\n"@ + rebased_text(
            b,
            tenant,
        ),
    decreases a.len(),
{
    reveal_strlit("\n");
    reveal_strlit("state_file:");
    let key = "state_file:"@;
    let s = a + "\n"@ + b;
    text::lemma_find(a, key);
    text::lemma_find(b, key);
    text::lemma_find(s, key);
    assert forall|k: int| k <= a.len() && text::occurs_at(s, key, k) implies text::occurs_at(
        a,
        key,
        k,
    ) by {
        if k + key.len() > a.len() {
            assert(s.subrange(k, k + key.len())[a.len() - k] == '\n');
        } else {
            assert(a.subrange(k, k + key.len()) =~= s.subrange(k, k + key.len()));
        }
    }
    assert forall|k: int| k > a.len() && text::occurs_at(s, key, k) implies text::occurs_at(
        b,
        key,
        k - a.len() - 1,
    ) by {
        assert(b.subrange(k - a.len() - 1, k - a.len() - 1 + key.len()) =~= s.subrange(
            k,
            k + key.len(),
        ));
    }
    match text::find(a, key) {
        None => {
            match text::find(b, key) {
                None => {
                    assert(text::find(s, key) is None);
                },
                Some(i) => {
                    let at = a.len() + 1 + i;
                    assert(s.subrange(at, at + key.len()) =~= b.subrange(i, i + key.len()));
                    text::lemma_find_is(s, key, at);
                    let from = at + key.len();
                    assert(s.skip(from) =~= b.skip(i + key.len()));
                    assert(s.take(from) =~= a + "\n"@ + b.take(i + key.len()));
                    assert(rebased_text(s, tenant) =~= a + "\n"@ + rebased_text(b, tenant));
                },
            }
        },
        Some(i) => {
            assert(s.subrange(i, i + key.len()) =~= a.subrange(i, i + key.len()));
            text::lemma_find_is(s, key, i);
            let from = i + key.len();
            let va = a.skip(from);
            let vs = s.skip(from);
            assert(vs =~= va + "\n"@ + b);
            assert(agree(va, vs, va.len() as int));
            lemma_agree_aim(va, vs, va.len() as int);
            lemma_aim(va);
            let n = aim(va).1;
            let rest = va.skip(n);
            assert(vs.skip(n) =~= rest + "\n"@ + b);
            assert forall|j: int| 0 <= j < rest.len() implies Class::Except('\n').has(
                #[trigger] rest[j],
            ) by {
                assert(rest[j] == a[from + n + j]);
            }
            lemma_rebased_by_line(rest, b, tenant);
            assert(s.take(from) =~= a.take(from));
            assert(rebased_text(s, tenant) =~= rebased_text(a, tenant) + "\n"@ + rebased_text(
                b,
                tenant,
            ));
        },
    }
}

/// A rebased line is one line.
proof fn lemma_rebased_is_a_line(a: Seq<char>, tenant: Seq<char>)
    requires
        text::all_in(a, Class::Except('\n')),
        text::all_in(tenant, Class::Name),
    ensures
        text::all_in(rebased_text(a, tenant), Class::Except('\n')),
        a.len() > 0 ==> rebased_text(a, tenant).len() > 0,
    decreases a.len(),
{
    reveal_strlit("state_file:");
    let key = "state_file:"@;
    text::lemma_find(a, key);
    if text::find(a, key) is Some {
        let i = text::find(a, key)->0;
        let from = i + key.len();
        let value = a.skip(from);
        lemma_aim(value);
        let rest = value.skip(aim(value).1);
        let r = rebased(aim(value).0, tenant);
        assert forall|j: int| 0 <= j < rest.len() implies Class::Except('\n').has(
            #[trigger] rest[j],
        ) by {
            assert(rest[j] == a[from + aim(value).1 + j]);
        }
        lemma_rebased_is_a_line(rest, tenant);
        if !(aim(value).0 is Other) {
            lemma_rebased_shape(value, tenant);
        }
        let b = rebased_text(rest, tenant);
        let out = rebased_text(a, tenant);
        assert forall|j: int| 0 <= j < out.len() implies Class::Except('\n').has(
            #[trigger] out[j],
        ) by {
            if j < from {
                assert(out[j] == a[j]);
            } else if j < from + r.len() {
                assert(out[j] == r[j - from]);
            } else {
                assert(out[j] == b[j - from - r.len()]);
            }
        }
    }
}

/// A name line holds no `state_file:` key.
proof fn lemma_name_line_has_no_key(line: Seq<char>, k: int)
    requires
        manifest::name_value(line) is Some,
    ensures
        !text::occurs_at(line, "state_file:"@, k),
{
    reveal_strlit("state_file:");
    reveal_strlit("name:");
    let key = "state_file:"@;
    if text::occurs_at(line, key, k) {
        let at = line.subrange(k, k + key.len());
        text::lemma_lead(line, Class::Space);
        let ws = text::lead(line, Class::Space);
        let rest = line.skip(ws);
        assert(rest.take("name:"@.len() as int) == "name:"@);
        let after = rest.skip("name:"@.len() as int);
        text::lemma_lead(after, Class::Space);
        let t = text::trim_start(after);
        text::lemma_trail(t, Class::Space);
        let value = text::trim(after);
        let c = k + 10;
        assert(at[10] == ':');
        assert(line[c] == ':');
        assert(at[8] == key[8]);
        assert(line[c - 2] == 'l');
        if c < ws {
            assert(Class::Space.has(line[c]));
        } else if c < ws + "name:"@.len() {
            assert(line[c] == rest.take("name:"@.len() as int)[c - ws]);
            assert(c == ws + 4);
            assert(line[c - 2] == rest.take("name:"@.len() as int)[2]);
        } else {
            let i = c - ws - "name:"@.len();
            let n = text::lead(after, Class::Space);
            assert(after[i] == ':');
            if i < n {
                assert(Class::Space.has(after[i]));
            } else if i - n < value.len() {
                assert(value[i - n] == after[i]);
                assert(Class::Name.has(value[i - n]));
            } else {
                assert(t[i - n] == after[i]);
                assert(Class::Space.has(t[i - n]));
            }
        }
    }
}

proof fn lemma_settled_strip(line: Seq<char>, tenant: Seq<char>)
    requires
        settled_line(line, tenant),
    ensures
        settled_line(text::strip_return(line), tenant),
{
    let key = "state_file:"@;
    let x = text::strip_return(line);
    assert forall|k: int| #[trigger] text::occurs_at(x, key, k) implies ({
        let named = aim(x.skip(k + key.len())).0;
        named is Other || named == Aim::Tenant(tenant)
    }) by {
        if x != line {
            assert(line.subrange(k, k + key.len()) =~= x.subrange(k, k + key.len()));
            assert(text::occurs_at(line, key, k));
            let a = x.skip(k + key.len());
            let b = line.skip(k + key.len());
            assert(b =~= a.push('\r'));
            assert(agree(a, b, a.len() as int));
            lemma_agree_aim(a, b, a.len() as int);
        }
    }
}

/// The lines of a text that starts with a line.
proof fn lemma_settled_first(line: Seq<char>, rest: Seq<char>, tenant: Seq<char>)
    requires
        text::all_in(line, Class::Except('\n')),
        settled_line(line, tenant),
        settled_text(rest, tenant),
    ensures
        settled_text(line + "\n"@ + rest, tenant),
{
    text::lemma_lines_first(line, rest);
    lemma_settled_strip(line, tenant);
    let all = text::lines(line + "\n"@ + rest);
    assert forall|i: int| 0 <= i < all.len() implies settled_line(#[trigger] all[i], tenant) by {
        if i > 0 {
            assert(all[i] == text::lines(rest)[i - 1]);
        }
    }
}

proof fn lemma_rebased_is_settled(s: Seq<char>, tenant: Seq<char>)
    requires
        text::all_in(tenant, Class::Name),
    ensures
        settled_text(rebased_text(s, tenant), tenant),
        manifest::first_name(text::lines(s)) is Some ==> manifest::first_name(
            text::lines(rebased_text(s, tenant)),
        ) is Some,
    decreases s.len(),
{
    reveal_strlit("\n");
    text::lemma_find(s, "state_file:"@);
    if s.len() == 0 {
        reveal_strlit("state_file:");
        assert(rebased_text(s, tenant) == s);
    } else {
        text::lemma_by_line(s);
        let n = text::lead(s, Class::Except('\n'));
        let line = s.take(n);
        let rest = s.skip(n + 1);
        let new = rebased_text(line, tenant);
        lemma_rebased_is_a_line(line, tenant);
        assert forall|k: int| #[trigger] text::occurs_at(new, "state_file:"@, k) implies ({
            let named = aim(new.skip(k + "state_file:"@.len())).0;
            named is Other || named == Aim::Tenant(tenant)
        }) by {
            law_no_origin_journal_left(line, tenant, k);
        }
        let bare = text::strip_return(line);
        if manifest::name_value(bare) is Some || manifest::name_value(line) is Some {
            assert forall|k: int| !text::occurs_at(line, "state_file:"@, k) by {
                lemma_name_without_return(line);
                assert(manifest::name_value(line) is Some);
                lemma_name_line_has_no_key(line, k);
            }
            text::lemma_find(line, "state_file:"@);
            assert(new == line);
        }
        if n == s.len() {
            text::lemma_lines_first(new, Seq::empty());
            assert(text::lines(s).skip(1) =~= Seq::<Seq<char>>::empty());
            assert(manifest::first_name(Seq::empty()) is None);
            assert(text::lines(new)[0] == new);
        } else {
            lemma_rebased_by_line(line, rest, tenant);
            lemma_rebased_is_settled(rest, tenant);
            let below = rebased_text(rest, tenant);
            lemma_settled_first(new, below, tenant);
            text::lemma_lines_first(new, below);
            let out = rebased_text(s, tenant);
            assert(text::lines(s).skip(1) =~= text::lines(rest));
            assert(text::lines(out).skip(1) =~= text::lines(below));
            assert(text::lines(out)[0] == text::strip_return(new));
            assert(text::lines(s)[0] == bare);
        }
    }
}

proof fn lemma_settled_parts(s: Seq<char>, tenant: Seq<char>)
    requires
        s.len() > 0,
        settled_text(s, tenant),
    ensures
        ({
            let n = text::lead(s, Class::Except('\n'));
            &&& n == s.len() ==> settled_line(s, tenant)
            &&& n < s.len() ==> settled_line(text::strip_return(s.take(n)), tenant)
                && settled_text(s.skip(n + 1), tenant)
        }),
{
    text::lemma_by_line(s);
    let n = text::lead(s, Class::Except('\n'));
    let all = text::lines(s);
    assert(settled_line(all[0], tenant));
    if n < s.len() {
        let below = text::lines(s.skip(n + 1));
        assert forall|i: int| 0 <= i < below.len() implies settled_line(
            #[trigger] below[i],
            tenant,
        ) by {
            assert(all[i + 1] == below[i]);
        }
    }
}

proof fn lemma_relined_is_settled(s: Seq<char>, tenant: Seq<char>)
    requires
        settled_text(s, tenant),
    ensures
        settled_text(relined_text(s), tenant),
    decreases s.len(),
{
    reveal_strlit("\n");
    if s.len() == 0 {
        assert(text::lines(s).len() == 0);
        assert(!text::ends_with(s, "\n"@));
        assert(relined_text(s) =~= s);
    } else {
        text::lemma_by_line(s);
        lemma_settled_parts(s, tenant);
        let n = text::lead(s, Class::Except('\n'));
        let line = text::strip_return(s.take(n));
        let rest = s.skip(n + 1);
        let below = text::lines(rest);
        if n == s.len() {
            assert(!text::ends_with(s, "\n"@)) by {
                if text::ends_with(s, "\n"@) {
                    assert(s.skip(s.len() - 1)[0] == '\n');
                    assert(Class::Except('\n').has(s.take(n)[s.len() - 1]));
                }
            }
            assert(relined_text(s) =~= s);
        } else {
            lemma_relined_is_settled(rest, tenant);
            text::lemma_stripped_is_a_line(s.take(n));
            lemma_settled_first(line, relined_text(rest), tenant);
            if rest.len() == 0 {
                assert(s.skip(s.len() - 1) =~= "\n"@);
                assert(!text::ends_with(rest, "\n"@));
                assert(text::lines(s) =~= seq![line]);
                assert(below.len() == 0);
                assert(relined_text(rest) =~= Seq::<char>::empty());
                assert(relined_text(s) =~= line + "\n"@ + relined_text(rest));
            } else {
                text::lemma_join_first(line, below, "\n"@);
                assert(s.skip(s.len() - 1) =~= rest.skip(rest.len() - 1));
                assert(relined_text(s) =~= line + "\n"@ + relined_text(rest));
            }
        }
    }
}

proof fn lemma_renamed_is_settled(s: Seq<char>, tenant: Seq<char>)
    requires
        tenant.len() > 0,
        text::all_in(tenant, Class::Name),
        settled_text(s, tenant),
    ensures
        settled_text(renamed_text(s, tenant), tenant),
    decreases s.len(),
{
    reveal_strlit("\n");
    if s.len() == 0 {
        assert(text::lines(s).len() == 0);
        assert(!text::ends_with(s, "\n"@));
        assert(renamed_text(s, tenant) =~= s);
    } else {
        text::lemma_by_line(s);
        lemma_settled_parts(s, tenant);
        lemma_renamed_first(s, tenant);
        let n = text::lead(s, Class::Except('\n'));
        let line = if n == s.len() {
            s
        } else {
            text::strip_return(s.take(n))
        };
        let rest = s.skip(n + 1);
        text::lemma_stripped_is_a_line(s.take(n));
        if manifest::name_value(line) is Some {
            let new = renamed_line(line, tenant);
            lemma_name_of_renamed(line, tenant);
            assert forall|k: int| !text::occurs_at(new, "state_file:"@, k) by {
                lemma_name_line_has_no_key(new, k);
            }
            if n == s.len() {
                text::lemma_lines_first(new, Seq::empty());
            } else {
                lemma_relined_is_settled(rest, tenant);
                lemma_settled_first(new, relined_text(rest), tenant);
            }
        } else if n < s.len() {
            lemma_renamed_is_settled(rest, tenant);
            lemma_settled_first(line, renamed_text(rest, tenant), tenant);
        }
    }
}

/// The manifest that a restore leaves in the tenant.
pub open spec fn restored_manifest(manifest: Seq<char>, tenant: Seq<char>) -> Seq<char> {
    renamed_text(rebased_text(manifest, tenant), tenant)
}

/// The restored manifest becomes the tenant's own: no line of it names a
/// journal of the origin, and where the origin bore a name it bears the
/// tenant's.
pub proof fn law_restored_manifest_is_the_tenants(manifest: Seq<char>, tenant: Seq<char>)
    requires
        tenant.len() > 0,
        text::all_in(tenant, Class::Name),
    ensures
        settled_text(restored_manifest(manifest, tenant), tenant),
        manifest::first_name(text::lines(manifest)) is Some ==> manifest::deployment_name(
            restored_manifest(manifest, tenant),
        ) == tenant,
{
    lemma_rebased_is_settled(manifest, tenant);
    let middle = rebased_text(manifest, tenant);
    lemma_renamed_is_settled(middle, tenant);
    if manifest::first_name(text::lines(manifest)) is Some {
        law_renamed_bears_the_name(middle, tenant);
    }
}

} // verus!
