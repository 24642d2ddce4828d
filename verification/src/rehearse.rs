//! The operator's upgrade drill: backup, rebuild the binaries, restart
//! (journals replay), then prove the state equal and the journals
//! append-only. An upgrade never rehearsed is an outage waiting for a
//! calendar slot.

use vstd::prelude::*;
use vstd::slice::*;
use vstd::string::*;

use crate::archive::ToolOutput;
use crate::backup;
use crate::calendar;
use crate::calendar::utc_stamp;
use crate::decimal;
use crate::decimal::{decimal_of, parsed_number};
use crate::drill;
use crate::environment;
use crate::http;
use crate::http::{document_of, HttpText};
use crate::json;
use crate::json::{compact, number_json, pretty, text_json, Fields, Json, JsonView};
use crate::listing;
use crate::listing::{walk_matching, Tree, TreeView};
use crate::order;
use crate::path;
use crate::path::join;
use crate::plan::{Ending, EndingView, Fault, FaultView, Outcome, Plan, Step, StepView};
use crate::text;
use crate::text::{
    begins, cat2, cat3, cat4, chars_of, cut, ends, entries_of, every, joined, lines_of, pieces,
    position, same_text, text_from, Class,
};

verus! {

// ---------------------------------------------------------------------------
// The declared services and their ports.
// ---------------------------------------------------------------------------

/// The services that the configuration tool declares: one per line.
pub fn declared_services(out: &Option<ToolOutput>) -> (r: Result<Vec<String>, String>)
    ensures
        match r {
            Ok(names) => out matches Some(o) && o.success && text::views(names@) == text::entries(
                text::lossy(o.stdout@),
            ),
            Err(m) => (out matches Some(o) ==> !o.success) && m@
                == "cannot enumerate the declared services"@,
        },
{
    match out {
        Some(o) => if o.success {
            Ok(entries_of(text_from(o.stdout.as_slice()).as_str()))
        } else {
            Err("cannot enumerate the declared services".to_string())
        },
        None => Err("cannot enumerate the declared services".to_string()),
    }
}

/// A line of the rendered environment shaped `UNIDPP_[A-Z_]*BIND=`.
pub open spec fn is_bind(line: Seq<char>) -> bool {
    exists|middle: Seq<char>, rest: Seq<char>|
        text::all_in(middle, Class::Upper) && line == #[trigger] ("UNIDPP_"@ + middle + "BIND="@
            + rest)
}

/// A line of the rendered environment shaped `UNIDPP_[A-Z_]*BIND=`.
pub fn is_bind_line(line: &str) -> (r: bool)
    ensures
        r == is_bind(line@),
{
    let chars = chars_of(line);
    let all = chars.as_slice();
    let prefix = chars_of("UNIDPP_");
    let bind = chars_of("BIND=");
    if !begins(all, prefix.as_slice()) {
        proof {
            if is_bind(line@) {
                let (m, t) = choose|m: Seq<char>, t: Seq<char>|
                    text::all_in(m, Class::Upper) && line@ == #[trigger] ("UNIDPP_"@ + m
                        + "BIND="@ + t);
                assert(line@.take("UNIDPP_"@.len() as int) =~= "UNIDPP_"@);
            }
        }
        return false;
    }
    let rest = slice_subrange(all, prefix.len(), all.len());
    assert(rest@ =~= line@.skip("UNIDPP_"@.len() as int));
    assert(line@ =~= "UNIDPP_"@ + rest@) by {
        assert(line@ =~= line@.take("UNIDPP_"@.len() as int) + rest@);
    }
    proof {
        text::lemma_find(rest@, bind@);
    }
    match position(rest, bind.as_slice()) {
        Some(n) => {
            let middle = slice_subrange(rest, 0, n);
            assert(middle@ =~= rest@.take(n as int));
            let r = every(middle, &Class::Upper);
            proof {
                lemma_bind(rest@, n as int);
                if r {
                    let tail = rest@.skip(n + bind@.len());
                    assert(rest@ =~= middle@ + rest@.subrange(n as int, n + bind@.len()) + tail);
                    assert(line@ =~= "UNIDPP_"@ + middle@ + "BIND="@ + tail);
                }
                if is_bind(line@) {
                    let (m, t) = choose|m: Seq<char>, t: Seq<char>|
                        text::all_in(m, Class::Upper) && line@ == #[trigger] ("UNIDPP_"@ + m
                            + "BIND="@ + t);
                    assert(rest@ =~= m + "BIND="@ + t);
                    lemma_bind_middle(rest@, m, t, n as int);
                }
            }
            r
        },
        None => {
            proof {
                if is_bind(line@) {
                    let (m, t) = choose|m: Seq<char>, t: Seq<char>|
                        text::all_in(m, Class::Upper) && line@ == #[trigger] ("UNIDPP_"@ + m
                            + "BIND="@ + t);
                    assert(rest@ =~= m + "BIND="@ + t);
                    let k = m.len() as int;
                    assert(rest@.subrange(k, k + bind@.len()) =~= bind@);
                    assert(text::occurs_at(rest@, bind@, k));
                }
            }
            false
        },
    }
}

proof fn lemma_bind(rest: Seq<char>, n: int)
    requires
        text::occurs_at(rest, "BIND="@, n),
    ensures
        rest.subrange(n, n + "BIND="@.len()) == "BIND="@,
{
}

/// The first `BIND=` ends no later than any other, so what stands before it
/// is part of what stands before the other.
proof fn lemma_bind_middle(rest: Seq<char>, m: Seq<char>, t: Seq<char>, n: int)
    requires
        rest == m + "BIND="@ + t,
        text::all_in(m, Class::Upper),
        text::occurs_at(rest, "BIND="@, n),
        forall|j: int| j < n ==> !text::occurs_at(rest, "BIND="@, j),
    ensures
        text::all_in(rest.take(n), Class::Upper),
{
    let k = m.len() as int;
    assert(rest.subrange(k, k + "BIND="@.len()) =~= "BIND="@);
    assert(text::occurs_at(rest, "BIND="@, k));
    assert(n <= k);
    assert forall|i: int| 0 <= i < n implies Class::Upper.has(#[trigger] rest.take(n)[i]) by {
        assert(rest.take(n)[i] == m[i]);
    }
}

/// The first bind line of a rendered environment, nothing where there is
/// none.
pub open spec fn first_bind(lines: Seq<Seq<char>>) -> Seq<char>
    decreases lines.len(),
{
    if lines.len() == 0 {
        Seq::empty()
    } else if is_bind(lines[0]) {
        lines[0]
    } else {
        first_bind(lines.skip(1))
    }
}

/// The port of a bind line: what stands after the first colon of its value,
/// up to the next one.
pub open spec fn port_of(line: Seq<char>) -> Seq<char> {
    match text::split_once(line, '=') {
        Some((_, value)) => {
            let parts = text::split(value, ':');
            if parts.len() > 1 {
                parts[1]
            } else {
                Seq::empty()
            }
        },
        None => Seq::empty(),
    }
}

/// The bind port of a declared service, from the manifest's rendered
/// environment; nothing where the rendering failed.
pub fn svc_bind(rendered: &Option<ToolOutput>) -> (r: String)
    ensures
        r@ == match rendered {
            Some(o) => if o.success {
                port_of(first_bind(text::lines(text::lossy(o.stdout@))))
            } else {
                Seq::empty()
            },
            None => Seq::empty(),
        },
{
    let out: &ToolOutput = match rendered {
        Some(o) => if o.success {
            o
        } else {
            return String::new();
        },
        None => {
            return String::new();
        },
    };
    let env = text_from(out.stdout.as_slice());
    let lines = lines_of(chars_of(env.as_str()).as_slice());
    let ghost all = text::lines(env@);
    let mut i: usize = 0;
    assert(all.skip(0) =~= all);
    while i < lines.len() && !is_bind_line(lines[i].as_str())
        invariant
            i <= lines.len(),
            text::views(lines@) == all,
            first_bind(all.skip(i as int)) == first_bind(all),
        decreases lines.len() - i,
    {
        assert(all.skip(i as int)[0] == lines@[i as int]@);
        assert(all.skip(i as int).skip(1) =~= all.skip(i + 1));
        i += 1;
    }
    if i >= lines.len() {
        assert(all.skip(i as int).len() == 0);
        proof {
            text::lemma_lead(Seq::<char>::empty(), Class::Except('='));
        }
        return String::new();
    }
    assert(all.skip(i as int)[0] == lines@[i as int]@);
    match cut(chars_of(lines[i].as_str()).as_slice(), '=') {
        Some((_name, value)) => {
            let parts = pieces(chars_of(value.as_str()).as_slice(), ':');
            assert(text::views(parts@).len() == parts@.len());
            if parts.len() > 1 {
                assert(text::views(parts@)[1] == parts@[1]@);
                parts[1].clone()
            } else {
                String::new()
            }
        },
        None => String::new(),
    }
}

/// The services and their ports as one text.
pub open spec fn binds(ports: Seq<(Seq<char>, Seq<char>)>) -> Seq<char> {
    text::join(ports.map_values(|p: (Seq<char>, Seq<char>)| p.0 + "="@ + p.1), ","@)
}

/// The services and their ports as one text.
pub fn binds_text(ports: &Vec<(String, String)>) -> (r: String)
    ensures
        r@ == binds(environment::pair_views(ports@)),
{
    let mut parts: Vec<String> = Vec::new();
    let mut i: usize = 0;
    while i < ports.len()
        invariant
            i <= ports.len(),
            parts@.len() == i,
            forall|k: int|
                0 <= k < i ==> (#[trigger] parts@[k])@ == ports@[k].0@ + "="@ + ports@[k].1@,
        decreases ports.len() - i,
    {
        parts.push(cat3(ports[i].0.as_str(), "=", ports[i].1.as_str()));
        i += 1;
    }
    assert(text::views(parts@) =~= environment::pair_views(ports@).map_values(
        |p: (Seq<char>, Seq<char>)| p.0 + "="@ + p.1,
    ));
    joined(parts.as_slice(), ",")
}

/// The port of each service, by name.
pub open spec fn port_map(parts: Seq<Seq<char>>) -> Map<Seq<char>, JsonView>
    decreases parts.len(),
{
    if parts.len() == 0 {
        Map::empty()
    } else {
        match text::split_once(parts.last(), '=') {
            Some((name, port)) => port_map(parts.drop_last()).insert(name, JsonView::Text(port)),
            None => port_map(parts.drop_last()),
        }
    }
}

/// What is asked of a service beside its identity.
pub open spec fn domain_path(service: Seq<char>) -> Option<Seq<char>> {
    if service == "registry"@ {
        Some("/items?limit=1"@)
    } else if service == "trust"@ {
        Some("/revocations"@)
    } else if service == "log"@ {
        Some("/tree/head"@)
    } else if service == "resolver"@ {
        Some("/linksets?limit=1"@)
    } else {
        None
    }
}

/// What is asked of a service: at which port, if it has one, and at which
/// path beside `/`.
pub struct Probe {
    pub service: String,
    pub port: Option<u16>,
    pub path: Option<String>,
}

/// The probe asks a service what it has to be asked.
pub open spec fn is_probe(p: Probe, service: Seq<char>, port: JsonView) -> bool {
    &&& p.service@ == service
    &&& port is Text
    &&& match p.port {
        Some(n) => decimal::parse_number(port->Text_0, u16::MAX as nat) == Some(n as nat),
        None => decimal::parse_number(port->Text_0, u16::MAX as nat) is None,
    }
    &&& match p.path {
        Some(path) => domain_path(service) == Some(path@),
        None => domain_path(service) is None,
    }
}

fn domain_path_of(service: &str) -> (r: Option<String>)
    ensures
        match r {
            Some(path) => domain_path(service@) == Some(path@),
            None => domain_path(service@) is None,
        },
{
    if same_text(service, "registry") {
        Some("/items?limit=1".to_string())
    } else if same_text(service, "trust") {
        Some("/revocations".to_string())
    } else if same_text(service, "log") {
        Some("/tree/head".to_string())
    } else if same_text(service, "resolver") {
        Some("/linksets?limit=1".to_string())
    } else {
        None
    }
}

/// What is asked of the services, in the order of their names.
pub fn probes(binds: &str) -> (r: Vec<Probe>)
    ensures
        ({
            let map = port_map(text::split(binds@, ','));
            let names = order::listed(map.dom());
            &&& r@.len() == names.len()
            &&& names.to_set() == map.dom()
            &&& forall|i: int|
                0 <= i < r@.len() ==> is_probe(#[trigger] r@[i], names[i], map[names[i]])
        }),
{
    let parts = pieces(chars_of(binds).as_slice(), ',');
    let ghost all = text::split(binds@, ',');
    let ghost map = port_map(all);
    let mut fields = Fields::new();
    let mut i: usize = 0;
    assert(all.take(0) =~= Seq::<Seq<char>>::empty());
    while i < parts.len()
        invariant
            i <= parts.len(),
            text::views(parts@) == all,
            fields@ == port_map(all.take(i as int)),
            forall|k: Seq<char>| #[trigger] fields@.contains_key(k) ==> fields@[k] is Text,
        decreases parts.len() - i,
    {
        assert(all.take(i + 1).drop_last() =~= all.take(i as int));
        assert(all.take(i + 1).last() == parts@[i as int]@);
        if let Some((name, port)) = cut(chars_of(parts[i].as_str()).as_slice(), '=') {
            fields.put(name.as_str(), text_json(port.as_str()));
        }
        i += 1;
    }
    assert(all.take(i as int) =~= all);
    let ports = fields.done();
    let mut out: Vec<Probe> = Vec::new();
    if let Some(entries) = ports.entries() {
        let ghost names = order::listed(map.dom());
        let mut j: usize = 0;
        while j < entries.len()
            invariant
                j <= entries.len(),
                json::keys_of(entries@) == names,
                names.to_set() == map.dom(),
                forall|k: int|
                    0 <= k < entries@.len() ==> (#[trigger] entries@[k]).1@ == map[entries@[k].0@],
                forall|k: Seq<char>| #[trigger] map.contains_key(k) ==> map[k] is Text,
                out@.len() == j,
                forall|k: int|
                    0 <= k < j ==> is_probe(#[trigger] out@[k], names[k], map[names[k]]),
            decreases entries.len() - j,
        {
            let service = entries[j].0.as_str();
            assert(json::keys_of(entries@)[j as int] == service@);
            assert(names.to_set().contains(names[j as int]));
            assert(map.contains_key(service@));
            assert(entries@[j as int].1@ == map[names[j as int]]);
            assert(map[names[j as int]] is Text);
            let port: Option<u16> = match entries[j].1.as_text() {
                Some(t) => match parsed_number(chars_of(t.as_str()).as_slice(), u16::MAX as u64) {
                    Some(n) => Some(n as u16),
                    None => None,
                },
                None => None,
            };
            let probe = Probe { service: service.to_string(), port, path: domain_path_of(service) };
            out.push(probe);
            j += 1;
        }
        assert(json::keys_of(entries@).len() == entries@.len());
    }
    out
}

// ---------------------------------------------------------------------------
// The readings.
// ---------------------------------------------------------------------------

/// What a service answered: to the question for its identity, and to the
/// other one.
pub struct Answers {
    pub service: String,
    pub identity: Option<HttpText>,
    pub domain: Option<HttpText>,
}

/// The text of a field, `?` where there is none.
pub open spec fn text_or_unknown(doc: JsonView, key: Seq<char>) -> Seq<char> {
    match json::get(doc, key) {
        Some(JsonView::Text(t)) => t,
        _ => "?"@,
    }
}

/// The text of a field, `?` where there is none.
pub fn text_field(doc: &Json, key: &str) -> (r: String)
    ensures
        r@ == text_or_unknown(doc@, key@),
{
    match doc.get(key) {
        Some(v) => match v.as_text() {
            Some(t) => t.clone(),
            None => "?".to_string(),
        },
        None => "?".to_string(),
    }
}

/// The identity of a service: its version and its build.
pub open spec fn identity(reply: Option<HttpText>) -> JsonView {
    match http::document(reply) {
        Some(doc) => JsonView::Text(
            text_or_unknown(doc, "version"@) + "+"@ + text_or_unknown(doc, "build_id"@),
        ),
        None => JsonView::Null,
    }
}

fn identity_of(reply: &Option<HttpText>) -> (r: Json)
    ensures
        r@ == identity(*reply),
{
    match document_of(reply) {
        Some(doc) => Json::Text(
            cat3(
                text_field(&doc, "version").as_str(),
                "+",
                text_field(&doc, "build_id").as_str(),
            ),
        ),
        None => Json::Null,
    }
}

/// The identities of the services, by name.
pub open spec fn identities(answers: Seq<Answers>) -> Map<Seq<char>, JsonView>
    decreases answers.len(),
{
    if answers.len() == 0 {
        Map::empty()
    } else {
        identities(answers.drop_last()).insert(
            answers.last().service@,
            identity(answers.last().identity),
        )
    }
}

/// The name of a service's reading.
pub open spec fn reading_name(service: Seq<char>) -> Seq<char> {
    if service == "registry"@ {
        "registry_items"@
    } else if service == "trust"@ {
        "trust_revocations"@
    } else if service == "log"@ {
        "log_tree_size"@
    } else {
        "resolver_linksets"@
    }
}

/// A service's reading: what its state is.
pub open spec fn reading(service: Seq<char>, reply: Option<HttpText>) -> JsonView {
    match http::document(reply) {
        None => JsonView::Null,
        Some(doc) => if service == "trust"@ {
            match json::get(doc, "revocations"@) {
                Some(JsonView::Array(items)) => json::number(items.len()),
                _ => JsonView::Null,
            }
        } else if service == "log"@ {
            json::field(doc, "tree_size"@)
        } else {
            json::field(doc, "count"@)
        },
    }
}

fn field_of(doc: &Json, key: &str) -> (r: Json)
    ensures
        r@ == json::field(doc@, key@),
{
    match doc.get(key) {
        Some(v) => v.copy(),
        None => Json::Null,
    }
}

fn reading_of(service: &str, reply: &Option<HttpText>) -> (r: Json)
    ensures
        r@ == reading(service@, *reply),
{
    match document_of(reply) {
        None => Json::Null,
        Some(doc) => if same_text(service, "trust") {
            match doc.get("revocations") {
                Some(v) => match v.as_array() {
                    Some(items) => number_json(items.len() as u64),
                    None => Json::Null,
                },
                None => Json::Null,
            }
        } else if same_text(service, "log") {
            field_of(&doc, "tree_size")
        } else {
            field_of(&doc, "count")
        },
    }
}

/// The readings of the services that have one, added to a map.
pub open spec fn domain_readings(
    answers: Seq<Answers>,
    start: Map<Seq<char>, JsonView>,
) -> Map<Seq<char>, JsonView>
    decreases answers.len(),
{
    if answers.len() == 0 {
        start
    } else {
        let before = domain_readings(answers.drop_last(), start);
        let service = answers.last().service@;
        if domain_path(service) is Some {
            before.insert(reading_name(service), reading(service, answers.last().domain))
        } else {
            before
        }
    }
}

/// A journal and its text.
pub struct Journal {
    pub path: String,
    pub text: String,
}

/// The number of lines of each journal.
pub open spec fn line_counts(journals: Seq<Journal>) -> Map<Seq<char>, JsonView>
    decreases journals.len(),
{
    if journals.len() == 0 {
        Map::empty()
    } else {
        line_counts(journals.drop_last()).insert(
            journals.last().path@,
            json::number(text::lines(journals.last().text@).len()),
        )
    }
}

/// The domain readings — what the state IS, not just file sizes — plus the
/// journal line counts.
pub open spec fn all_readings(answers: Seq<Answers>, journals: Seq<Journal>) -> JsonView {
    JsonView::Object(
        domain_readings(
            answers,
            Map::<Seq<char>, JsonView>::empty().insert(
                "build_identity"@,
                JsonView::Object(identities(answers)),
            ),
        ).insert("journal_lines"@, JsonView::Object(line_counts(journals))),
    )
}

/// The number of lines of a journal.
pub fn count_lines(text: &str) -> (r: usize)
    ensures
        r == text::lines(text@).len(),
{
    let lines = lines_of(chars_of(text).as_slice());
    assert(text::views(lines@).len() == lines@.len());
    lines.len()
}

/// The domain readings — what the state IS, not just file sizes — plus the
/// journal line counts. The shape is the rehearsal's before/after contract.
pub fn readings(answers: &Vec<Answers>, journals: &Vec<Journal>) -> (r: Json)
    ensures
        r@ == all_readings(answers@, journals@),
{
    let mut names = Fields::new();
    let mut i: usize = 0;
    assert(answers@.take(0) =~= Seq::<Answers>::empty());
    while i < answers.len()
        invariant
            i <= answers.len(),
            names@ == identities(answers@.take(i as int)),
        decreases answers.len() - i,
    {
        assert(answers@.take(i + 1).drop_last() =~= answers@.take(i as int));
        assert(answers@.take(i + 1).last() == answers@[i as int]);
        names.put(answers[i].service.as_str(), identity_of(&answers[i].identity));
        i += 1;
    }
    assert(answers@.take(i as int) =~= answers@);
    let mut out = Fields::new();
    out.put("build_identity", names.done());
    let ghost start = out@;
    let mut j: usize = 0;
    while j < answers.len()
        invariant
            j <= answers.len(),
            out@ == domain_readings(answers@.take(j as int), start),
        decreases answers.len() - j,
    {
        assert(answers@.take(j + 1).drop_last() =~= answers@.take(j as int));
        assert(answers@.take(j + 1).last() == answers@[j as int]);
        let service = answers[j].service.as_str();
        if domain_path_of(service).is_some() {
            let name: &str = if same_text(service, "registry") {
                "registry_items"
            } else if same_text(service, "trust") {
                "trust_revocations"
            } else if same_text(service, "log") {
                "log_tree_size"
            } else {
                "resolver_linksets"
            };
            out.put(name, reading_of(service, &answers[j].domain));
        }
        j += 1;
    }
    assert(answers@.take(j as int) =~= answers@);
    let mut lines = Fields::new();
    let mut k: usize = 0;
    assert(journals@.take(0) =~= Seq::<Journal>::empty());
    while k < journals.len()
        invariant
            k <= journals.len(),
            lines@ == line_counts(journals@.take(k as int)),
        decreases journals.len() - k,
    {
        assert(journals@.take(k + 1).drop_last() =~= journals@.take(k as int));
        assert(journals@.take(k + 1).last() == journals@[k as int]);
        let count = count_lines(journals[k].text.as_str());
        lines.put(journals[k].path.as_str(), number_json(count as u64));
        k += 1;
    }
    assert(journals@.take(k as int) =~= journals@);
    out.put("journal_lines", lines.done());
    out.done()
}

/// A journal under run/.
pub open spec fn is_run_journal() -> spec_fn(Seq<char>) -> bool {
    |name: Seq<char>| text::ends_with(name, "-journal.jsonl"@)
}

/// A journal under tenants/.
pub open spec fn is_tenant_journal() -> spec_fn(Seq<char>) -> bool {
    |name: Seq<char>| text::ends_with(name, "-journal.jsonl"@) || text::ends_with(name, ".jsonl"@)
}

/// The journals whose lines are counted.
pub open spec fn counted_journals(
    names: Seq<Seq<char>>,
    run: Seq<TreeView>,
    tenants: Seq<TreeView>,
) -> Seq<Seq<char>> {
    backup::if_present(names, "registry-journal.jsonl"@) + backup::if_present(
        names,
        "jp-registry-journal.jsonl"@,
    ) + backup::under("run"@, listing::walk(run, is_run_journal())) + backup::under(
        "tenants"@,
        listing::walk(tenants, is_tenant_journal()),
    )
}

/// The journals whose lines are counted: those at the root, by the names that
/// stand there, and those below run/ and tenants/.
pub fn journals_to_count(names: &Vec<String>, run: &Vec<Tree>, tenants: &Vec<Tree>) -> (r: Vec<
    String,
>)
    ensures
        text::views(r@) == counted_journals(
            text::views(names@),
            Tree::models(run@),
            Tree::models(tenants@),
        ),
{
    let in_run = |name: &str| -> (r: bool)
        ensures
            r == is_run_journal()(name@),
        { ends(chars_of(name).as_slice(), chars_of("-journal.jsonl").as_slice()) };
    let in_tenants = |name: &str| -> (r: bool)
        ensures
            r == is_tenant_journal()(name@),
        {
            ends(chars_of(name).as_slice(), chars_of("-journal.jsonl").as_slice()) || ends(
                chars_of(name).as_slice(),
                chars_of(".jsonl").as_slice(),
            )
        };
    assert(listing::says(in_run, is_run_journal()));
    assert(listing::says(in_tenants, is_tenant_journal()));
    let below_run = walk_matching(run, in_run);
    let below_tenants = walk_matching(tenants, in_tenants);
    assert(text::views(below_run@) == listing::walk(Tree::models(run@), is_run_journal()));
    assert(text::views(below_tenants@) == listing::walk(
        Tree::models(tenants@),
        is_tenant_journal(),
    ));
    let mut out: Vec<String> = Vec::new();
    assert(text::views(out@) =~= Seq::<Seq<char>>::empty());
    backup::push_present(&mut out, names, "registry-journal.jsonl");
    backup::push_present(&mut out, names, "jp-registry-journal.jsonl");
    backup::push_under(&mut out, "run", &below_run);
    backup::push_under(&mut out, "tenants", &below_tenants);
    out
}

// ---------------------------------------------------------------------------
// The verdict.
// ---------------------------------------------------------------------------

/// A reading that was there before the upgrade is the same after it.
pub open spec fn is_kept(before: JsonView, after: JsonView, key: Seq<char>) -> bool {
    match json::get(before, key) {
        Some(v) => v is Null || (match json::get(after, key) {
            Some(w) => json::alike(w, v),
            None => false,
        }),
        None => true,
    }
}

/// The domain readings are the same.
pub open spec fn domain_equal(before: JsonView, after: JsonView) -> bool {
    is_kept(before, after, "registry_items"@) && is_kept(before, after, "trust_revocations"@)
        && is_kept(before, after, "log_tree_size"@)
}

/// The journals have as many lines.
pub open spec fn journals_equal(before: JsonView, after: JsonView) -> bool {
    match (json::get(before, "journal_lines"@), json::get(after, "journal_lines"@)) {
        (Some(v), Some(w)) => json::alike(v, w),
        (None, None) => true,
        _ => false,
    }
}

fn kept(before: &Json, after: &Json, key: &str) -> (r: bool)
    ensures
        r == is_kept(before@, after@, key@),
{
    match before.get(key) {
        Some(v) => if v.is_null() {
            true
        } else {
            match after.get(key) {
                Some(w) => w.same(v),
                None => false,
            }
        },
        None => true,
    }
}

fn same_journals(before: &Json, after: &Json) -> (r: bool)
    ensures
        r == journals_equal(before@, after@),
{
    match (before.get("journal_lines"), after.get("journal_lines")) {
        (Some(v), Some(w)) => v.same(w),
        (None, None) => true,
        _ => false,
    }
}

/// The build identity of a service before and after.
pub open spec fn identity_pair(before: JsonView, after: JsonView, name: Seq<char>) -> JsonView {
    JsonView::Object(
        Map::<Seq<char>, JsonView>::empty().insert("before"@, json::field(before, name)).insert(
            "after"@,
            json::field(after, name),
        ),
    )
}

/// The build identities: recorded (what the swap actually served), not
/// compared — a version change is the POINT of an upgrade.
pub open spec fn identity_note(before: JsonView, after: JsonView) -> JsonView {
    match json::get(before, "build_identity"@) {
        Some(JsonView::Object(map)) => JsonView::Object(
            Map::new(
                |name: Seq<char>| map.contains_key(name),
                |name: Seq<char>|
                    identity_pair(
                        JsonView::Object(map),
                        json::field(after, "build_identity"@),
                        name,
                    ),
            ),
        ),
        _ => JsonView::Null,
    }
}

fn identity_note_of(before: &Json, after: &Json) -> (r: Json)
    ensures
        r@ == identity_note(before@, after@),
{
    let old_ids: &Json = match before.get("build_identity") {
        Some(v) => v,
        None => {
            return Json::Null;
        },
    };
    let new_ids = field_of(after, "build_identity");
    match old_ids.keys() {
        None => Json::Null,
        Some(keys) => {
            let ghost map = old_ids@->Object_0;
            let ghost names = text::views(keys@);
            let ghost full = identity_note(before@, after@)->Object_0;
            let mut note = Fields::new();
            let mut i: usize = 0;
            while i < keys.len()
                invariant
                    i <= keys.len(),
                    names == text::views(keys@),
                    old_ids@ == JsonView::Object(map),
                    forall|k: Seq<char>| #[trigger] note@.contains_key(k) <==> exists|j: int|
                        0 <= j < i && names[j] == k,
                    forall|k: Seq<char>| #[trigger]
                        note@.contains_key(k) ==> note@[k] == identity_pair(
                            old_ids@,
                            new_ids@,
                            k,
                        ),
                decreases keys.len() - i,
            {
                let name = keys[i].as_str();
                assert(names[i as int] == name@);
                let mut pair = Fields::new();
                pair.put("before", field_of(old_ids, name));
                pair.put("after", field_of(&new_ids, name));
                let ghost prior = note@;
                note.put(name, pair.done());
                proof {
                    assert forall|k: Seq<char>| #[trigger] note@.contains_key(k) <==> exists|j: int|
                        0 <= j < i + 1 && names[j] == k by {
                        if note@.contains_key(k) && k != name@ {
                            assert(prior.contains_key(k));
                            let j = choose|j: int| 0 <= j < i && names[j] == k;
                            assert(names[j] == k);
                        }
                        if exists|j: int| 0 <= j < i + 1 && names[j] == k {
                            let j = choose|j: int| 0 <= j < i + 1 && names[j] == k;
                            if j < i {
                                assert(prior.contains_key(k));
                            }
                        }
                    }
                }
                i += 1;
            }
            proof {
                assert(note@ =~= full) by {
                    assert forall|k: Seq<char>| #[trigger] note@.contains_key(k)
                        <==> full.contains_key(k) by {
                        if note@.contains_key(k) {
                            let j = choose|j: int| 0 <= j < i && names[j] == k;
                            assert(names.to_set().contains(names[j]));
                        }
                        if full.contains_key(k) {
                            assert(names.to_set().contains(k));
                            let j = choose|j: int| 0 <= j < names.len() && names[j] == k;
                            assert(0 <= j < i && names[j] == k);
                        }
                    }
                }
            }
            note.done()
        },
    }
}

/// A journal as the backup captured it, and as it is.
pub struct Pair {
    pub archived: Vec<u8>,
    pub live: Vec<u8>,
}

/// The journal was only appended to.
pub open spec fn is_appended(p: Pair) -> bool {
    p.archived@.len() <= p.live@.len() && p.live@.take(p.archived@.len() as int) == p.archived@
}

fn appended(p: &Pair) -> (r: bool)
    ensures
        r == is_appended(*p),
{
    if p.archived.len() > p.live.len() {
        return false;
    }
    let mut i: usize = 0;
    while i < p.archived.len()
        invariant
            i <= p.archived.len(),
            p.archived.len() <= p.live.len(),
            forall|j: int| 0 <= j < i ==> p.archived@[j] == p.live@[j],
        decreases p.archived.len() - i,
    {
        if p.archived[i] != p.live[i] {
            assert(p.live@.take(p.archived@.len() as int)[i as int] != p.archived@[i as int]);
            return false;
        }
        i += 1;
    }
    assert(p.live@.take(p.archived@.len() as int) =~= p.archived@);
    true
}

/// How many of the journals were only appended to.
pub open spec fn appended_count(pairs: Seq<Pair>) -> nat
    decreases pairs.len(),
{
    if pairs.len() == 0 {
        0
    } else {
        appended_count(pairs.drop_last()) + if is_appended(pairs.last()) {
            1nat
        } else {
            0nat
        }
    }
}

fn count_appended(pairs: &Vec<Pair>) -> (r: usize)
    ensures
        r == appended_count(pairs@),
        r <= pairs@.len(),
{
    let mut n: usize = 0;
    let mut i: usize = 0;
    assert(pairs@.take(0) =~= Seq::<Pair>::empty());
    while i < pairs.len()
        invariant
            i <= pairs.len(),
            n == appended_count(pairs@.take(i as int)),
            n <= i,
        decreases pairs.len() - i,
    {
        assert(pairs@.take(i + 1).drop_last() =~= pairs@.take(i as int));
        assert(pairs@.take(i + 1).last() == pairs@[i as int]);
        if appended(&pairs[i]) {
            n += 1;
        }
        i += 1;
    }
    assert(pairs@.take(i as int) =~= pairs@);
    n
}

/// The journals among an archive's members: those held against the live ones.
pub fn archived_journals(names: &Vec<String>) -> (r: Vec<String>)
    ensures
        text::views(r@) == text::views(names@).filter(
            |name: Seq<char>| text::ends_with(name, ".jsonl"@),
        ),
{
    let ghost all = text::views(names@);
    let ghost keep = |name: Seq<char>| text::ends_with(name, ".jsonl"@);
    let suffix = chars_of(".jsonl");
    let mut out: Vec<String> = Vec::new();
    let mut i: usize = 0;
    proof {
        reveal(Seq::filter);
        assert(all.take(0).filter(keep) =~= Seq::<Seq<char>>::empty());
        assert(text::views(out@) =~= Seq::<Seq<char>>::empty());
    }
    while i < names.len()
        invariant
            i <= names.len(),
            suffix@ == ".jsonl"@,
            all == text::views(names@),
            keep == (|name: Seq<char>| text::ends_with(name, ".jsonl"@)),
            text::views(out@) == all.take(i as int).filter(keep),
        decreases names.len() - i,
    {
        proof {
            reveal(Seq::filter);
            assert(all.take(i + 1).drop_last() =~= all.take(i as int));
            assert(all.take(i + 1).last() == names@[i as int]@);
        }
        let ghost before = text::views(out@);
        if ends(chars_of(names[i].as_str()).as_slice(), suffix.as_slice()) {
            out.push(names[i].clone());
            assert(text::views(out@) =~= before.push(names@[i as int]@));
        }
        i += 1;
    }
    assert(all.take(i as int) =~= all);
    out
}

/// The upgrade is proven: the state equal and the journals append-only.
pub open spec fn is_green(before: JsonView, after: JsonView, pairs: Seq<Pair>) -> bool {
    domain_equal(before, after) && journals_equal(before, after) && appended_count(pairs)
        == pairs.len()
}

/// The report of a rehearsal.
pub open spec fn upgrade_report(
    label: Seq<char>,
    before: JsonView,
    after: JsonView,
    pairs: Seq<Pair>,
) -> JsonView {
    JsonView::Object(
        Map::<Seq<char>, JsonView>::empty().insert("upgrade"@, JsonView::Text(label)).insert(
            "domain_readings_equal"@,
            JsonView::Bool(domain_equal(before, after)),
        ).insert("journal_lines_equal"@, JsonView::Bool(journals_equal(before, after))).insert(
            "append_only"@,
            JsonView::Text(
                drill::ratio(appended_count(pairs), pairs.len())
                    + " backup journals are live-prefix-compatible"@,
            ),
        ).insert("before"@, before).insert("after"@, after).insert(
            "build_identity"@,
            identity_note(before, after),
        ).insert(
            "result"@,
            JsonView::Text(
                if is_green(before, after, pairs) {
                    "GREEN"@
                } else {
                    "FAILED"@
                },
            ),
        ),
    )
}

/// A truth value as the report prints it.
pub fn py_bool(b: bool) -> (r: &'static str)
    ensures
        r@ == if b {
            "True"@
        } else {
            "False"@
        },
{
    if b {
        "True"
    } else {
        "False"
    }
}

/// The label of a rehearsal.
pub fn rehearsal_label(epoch: u64) -> (r: String)
    ensures
        r@ == "upgrade-"@ + calendar::stamp(epoch as nat),
{
    cat2("upgrade-", utc_stamp(epoch).as_str())
}

/// Where readings are kept during a rehearsal.
pub open spec fn readings_path(backups: Seq<char>, label: Seq<char>, when: Seq<char>) -> Seq<
    char,
> {
    path::below(backups, label + "."@ + when + ".json"@)
}

/// The step that keeps the readings taken before or after.
pub fn keep_readings(backups: &str, label: &str, when: &str, doc: &Json) -> (r: Plan)
    ensures
        r@ == seq![
            StepView::Write {
                path: readings_path(backups@, label@, when@),
                text: json::compact_text(doc@),
                fault: FaultView::Die("cannot write the "@ + when@ + "-readings"@),
            },
        ],
{
    let mut plan = Plan::new();
    plan.then_do(
        Step::Write {
            path: join(backups, cat4(label, ".", when, ".json").as_str()),
            text: compact(doc),
            fault: Fault::Die(cat3("cannot write the ", when, "-readings")),
        },
    );
    plan
}

/// The end of `rehearse-upgrade`: the report, and the verdict. Only a green
/// rehearsal removes the readings it kept.
pub fn cmd_rehearse(
    backups: &str,
    label: &str,
    before: &Json,
    after: &Json,
    pairs: &Vec<Pair>,
    seconds: u64,
) -> (r: Outcome)
    ensures
        ({
            let report = upgrade_report(label@, before@, after@, pairs@);
            let file = label@ + ".report.json"@;
            let steps = seq![
                StepView::Write {
                    path: path::below(backups@, file),
                    text: json::pretty_text(report),
                    fault: FaultView::Die("cannot write the rehearsal report"@),
                },
                StepView::Say(
                    "  domain readings equal: "@ + if domain_equal(before@, after@) {
                        "True"@
                    } else {
                        "False"@
                    },
                ),
                StepView::Say(
                    "  journal lines equal:   "@ + if journals_equal(before@, after@) {
                        "True"@
                    } else {
                        "False"@
                    },
                ),
                StepView::Say(
                    "  append-only:           "@ + drill::ratio(
                        appended_count(pairs@),
                        pairs@.len(),
                    ),
                ),
            ];
            if is_green(before@, after@, pairs@) {
                r.ending@ is Done && r.plan@ == steps + seq![
                    StepView::RemoveFile { path: readings_path(backups@, label@, "before"@) },
                    StepView::RemoveFile { path: readings_path(backups@, label@, "after"@) },
                    StepView::Say(
                        "rehearse: GREEN in "@ + decimal::decimal(seconds as nat)
                            + "s — report: backups/"@ + file,
                    ),
                ]
            } else {
                r.plan@ == steps && r.ending@ == EndingView::Die(
                    "rehearse FAILED (report kept: backups/"@ + file + ")"@,
                )
            }
        }),
        r.ending@ is Done <==> {
            &&& is_kept(before@, after@, "registry_items"@)
            &&& is_kept(before@, after@, "trust_revocations"@)
            &&& is_kept(before@, after@, "log_tree_size"@)
            &&& journals_equal(before@, after@)
            &&& forall|i: int| 0 <= i < pairs@.len() ==> is_appended(#[trigger] pairs@[i])
        },
{
    proof {
        lemma_appended_count(pairs@);
    }
    let domain = kept(before, after, "registry_items") && kept(
        before,
        after,
        "trust_revocations",
    ) && kept(before, after, "log_tree_size");
    let journals = same_journals(before, after);
    let prefix_ok = count_appended(pairs);
    let prefix_total = pairs.len();
    let ok = domain && journals && prefix_ok == prefix_total;
    let counts = drill::ratio_text(prefix_ok, prefix_total);
    let mut fields = Fields::new();
    fields.put("upgrade", text_json(label));
    fields.put("domain_readings_equal", Json::Bool(domain));
    fields.put("journal_lines_equal", Json::Bool(journals));
    fields.put(
        "append_only",
        text_json(
            cat2(counts.as_str(), " backup journals are live-prefix-compatible").as_str(),
        ),
    );
    fields.put("before", before.copy());
    fields.put("after", after.copy());
    fields.put("build_identity", identity_note_of(before, after));
    fields.put(
        "result",
        text_json(
            if ok {
                "GREEN"
            } else {
                "FAILED"
            },
        ),
    );
    let report = fields.done();
    let file = cat2(label, ".report.json");
    let mut plan = Plan::new();
    plan.then_do(
        Step::Write {
            path: join(backups, file.as_str()),
            text: pretty(&report),
            fault: Fault::Die("cannot write the rehearsal report".to_string()),
        },
    );
    plan.say(cat2("  domain readings equal: ", py_bool(domain)));
    plan.say(cat2("  journal lines equal:   ", py_bool(journals)));
    plan.say(cat2("  append-only:           ", counts.as_str()));
    if !ok {
        return Outcome {
            plan,
            ending: Ending::Die(
                cat3("rehearse FAILED (report kept: backups/", file.as_str(), ")"),
            ),
        };
    }
    plan.then_do(
        Step::RemoveFile { path: join(backups, cat4(label, ".", "before", ".json").as_str()) },
    );
    plan.then_do(
        Step::RemoveFile { path: join(backups, cat4(label, ".", "after", ".json").as_str()) },
    );
    plan.say(
        cat4(
            "rehearse: GREEN in ",
            decimal_of(seconds).as_str(),
            "s — report: backups/",
            file.as_str(),
        ),
    );
    Outcome { plan, ending: Ending::Done }
}

proof fn lemma_appended_count(pairs: Seq<Pair>)
    ensures
        appended_count(pairs) <= pairs.len(),
        appended_count(pairs) == pairs.len() <==> forall|i: int|
            0 <= i < pairs.len() ==> is_appended(#[trigger] pairs[i]),
    decreases pairs.len(),
{
    if pairs.len() > 0 {
        let rest = pairs.drop_last();
        lemma_appended_count(rest);
        if appended_count(pairs) == pairs.len() {
            assert forall|i: int| 0 <= i < pairs.len() implies is_appended(#[trigger] pairs[i]) by {
                if i < rest.len() {
                    assert(rest[i] == pairs[i]);
                }
            }
        }
        if forall|i: int| 0 <= i < pairs.len() ==> is_appended(#[trigger] pairs[i]) {
            assert forall|i: int| 0 <= i < rest.len() implies is_appended(#[trigger] rest[i]) by {
                assert(rest[i] == pairs[i]);
            }
            assert(is_appended(pairs[pairs.len() - 1]));
        }
    }
}

/// A rehearsal is green exactly when the domain readings and the journals'
/// line counts are the same and every journal that the backup captured is a
/// byte prefix of the live one.
pub proof fn law_green_means_append_only(before: JsonView, after: JsonView, pairs: Seq<Pair>)
    ensures
        is_green(before, after, pairs) <==> domain_equal(before, after) && journals_equal(
            before,
            after,
        ) && forall|i: int| 0 <= i < pairs.len() ==> is_appended(#[trigger] pairs[i]),
{
    lemma_appended_count(pairs);
}

/// A restart that changes nothing is green: the same readings before and
/// after, and journals that are as they were.
pub proof fn law_unchanged_state_is_green(doc: Json, pairs: Seq<Pair>)
    requires
        forall|i: int| 0 <= i < pairs.len() ==> (#[trigger] pairs[i]).archived@ == pairs[i].live@,
    ensures
        is_green(doc@, doc@, pairs),
{
    assert forall|i: int| 0 <= i < pairs.len() implies is_appended(#[trigger] pairs[i]) by {
        let p = pairs[i];
        assert(p.live@.take(p.archived@.len() as int) =~= p.archived@);
    }
    lemma_appended_count(pairs);
    json::lemma_field_alike(doc, "registry_items"@);
    json::lemma_field_alike(doc, "trust_revocations"@);
    json::lemma_field_alike(doc, "log_tree_size"@);
    json::lemma_field_alike(doc, "journal_lines"@);
}

/// A green rehearsal has kept every domain reading: the items of the registry,
/// the revocations of the trust service and the size of the log's tree, where
/// they were read before, are read again and are the same.
pub proof fn law_green_keeps_every_reading(
    before: JsonView,
    after: JsonView,
    pairs: Seq<Pair>,
    key: Seq<char>,
)
    requires
        is_green(before, after, pairs),
        key == "registry_items"@ || key == "trust_revocations"@ || key == "log_tree_size"@,
        json::get(before, key) is Some,
        !(json::get(before, key)->0 is Null),
    ensures
        json::get(after, key) is Some,
        json::alike(json::get(after, key)->0, json::get(before, key)->0),
{
}

/// A green rehearsal has rewritten no journal: every byte that the backup
/// captured of one still stands at its place in the live one.
pub proof fn law_green_rewrites_no_byte(
    before: JsonView,
    after: JsonView,
    pairs: Seq<Pair>,
    i: int,
    k: int,
)
    requires
        is_green(before, after, pairs),
        0 <= i < pairs.len(),
        0 <= k < pairs[i].archived@.len(),
    ensures
        k < pairs[i].live@.len(),
        pairs[i].live@[k] == pairs[i].archived@[k],
{
    lemma_appended_count(pairs);
    let p = pairs[i];
    assert(is_appended(p));
    assert(p.live@.take(p.archived@.len() as int)[k] == p.archived@[k]);
}

/// A rehearsal that is not green has lost something: a domain reading, the
/// line count of a journal, or a beginning of a journal.
pub proof fn law_failure_has_a_reason(before: JsonView, after: JsonView, pairs: Seq<Pair>)
    requires
        !is_green(before, after, pairs),
    ensures
        ({
            let is_lost = |key: Seq<char>|
                json::get(before, key) is Some && !(json::get(before, key)->0 is Null) && !(
                json::get(after, key) is Some && json::alike(
                    json::get(after, key)->0,
                    json::get(before, key)->0,
                ));
            ||| is_lost("registry_items"@)
            ||| is_lost("trust_revocations"@)
            ||| is_lost("log_tree_size"@)
            ||| json::get(before, "journal_lines"@) is Some != json::get(
                after,
                "journal_lines"@,
            ) is Some
            ||| json::get(before, "journal_lines"@) is Some && !json::alike(
                json::get(before, "journal_lines"@)->0,
                json::get(after, "journal_lines"@)->0,
            )
            ||| exists|i: int|
                0 <= i < pairs.len() && !((#[trigger] pairs[i]).archived@.len()
                    <= pairs[i].live@.len() && pairs[i].live@.take(pairs[i].archived@.len() as int)
                    == pairs[i].archived@)
        }),
{
    lemma_appended_count(pairs);
}

/// No service answers twice.
pub open spec fn answer_once(answers: Seq<Answers>) -> bool {
    forall|i: int, j: int|
        0 <= i < j < answers.len() ==> (#[trigger] answers[i]).service@ != (
        #[trigger] answers[j]).service@
}

proof fn lemma_service_names()
    ensures
        "registry"@ != "trust"@,
        "registry"@ != "log"@,
        "trust"@ != "log"@,
        "registry_items"@ != "trust_revocations"@,
        "registry_items"@ != "log_tree_size"@,
        "registry_items"@ != "resolver_linksets"@,
        "trust_revocations"@ != "log_tree_size"@,
        "trust_revocations"@ != "resolver_linksets"@,
        "log_tree_size"@ != "resolver_linksets"@,
        "registry_items"@ != "journal_lines"@,
        "trust_revocations"@ != "journal_lines"@,
        "log_tree_size"@ != "journal_lines"@,
{
    reveal_strlit("registry");
    reveal_strlit("trust");
    reveal_strlit("log");
    reveal_strlit("registry_items");
    reveal_strlit("trust_revocations");
    reveal_strlit("log_tree_size");
    reveal_strlit("resolver_linksets");
    reveal_strlit("journal_lines");
    assert("registry"@.len() == 8 && "trust"@.len() == 5 && "log"@.len() == 3);
    assert("registry_items"@.len() == 14 && "resolver_linksets"@.len() == 17);
    assert("trust_revocations"@[0] == 't');
    assert("resolver_linksets"@[0] == 'r');
    assert("log_tree_size"@[0] == 'l');
    assert("journal_lines"@[0] == 'j');
}

/// What a service answered is its reading.
proof fn lemma_reading_at(answers: Seq<Answers>, start: Map<Seq<char>, JsonView>, i: int)
    requires
        0 <= i < answers.len(),
        answer_once(answers),
        answers[i].service@ == "registry"@ || answers[i].service@ == "trust"@
            || answers[i].service@ == "log"@,
    ensures
        domain_readings(answers, start).contains_key(reading_name(answers[i].service@)),
        domain_readings(answers, start)[reading_name(answers[i].service@)] == reading(
            answers[i].service@,
            answers[i].domain,
        ),
    decreases answers.len(),
{
    lemma_service_names();
    let rest = answers.drop_last();
    if i < rest.len() {
        assert(answer_once(rest)) by {
            assert forall|a: int, b: int| 0 <= a < b < rest.len() implies (
            #[trigger] rest[a]).service@ != (#[trigger] rest[b]).service@ by {
                assert(rest[a] == answers[a] && rest[b] == answers[b]);
            }
        }
        assert(rest[i] == answers[i]);
        lemma_reading_at(rest, start, i);
        assert(answers[i].service@ != answers[answers.len() - 1].service@);
    }
}

proof fn lemma_readings(answers: Seq<Answers>, journals: Seq<Journal>, i: int)
    requires
        0 <= i < answers.len(),
        answer_once(answers),
        answers[i].service@ == "registry"@ || answers[i].service@ == "trust"@
            || answers[i].service@ == "log"@,
    ensures
        json::get(all_readings(answers, journals), reading_name(answers[i].service@)) == Some(
            reading(answers[i].service@, answers[i].domain),
        ),
{
    lemma_service_names();
    lemma_reading_at(
        answers,
        Map::<Seq<char>, JsonView>::empty().insert(
            "build_identity"@,
            JsonView::Object(identities(answers)),
        ),
        i,
    );
}

/// An upgrade that loses state fails: where a service answers otherwise after
/// it than before - the registry with another count, the trust service with
/// another number of revocations, the log with another tree size - or not at
/// all, the rehearsal is not green.
pub proof fn law_lost_state_is_not_green(
    before: Seq<Answers>,
    after: Seq<Answers>,
    i: int,
    j: int,
    then: Seq<Journal>,
    now: Seq<Journal>,
    pairs: Seq<Pair>,
)
    requires
        0 <= i < before.len(),
        0 <= j < after.len(),
        answer_once(before),
        answer_once(after),
        before[i].service@ == after[j].service@,
        is_green(all_readings(before, then), all_readings(after, now), pairs),
        http::document(before[i].domain) is Some,
    ensures
        ({
            let old_doc = http::document(before[i].domain)->0;
            let new_doc = http::document(after[j].domain);
            let service = before[i].service@;
            &&& service == "trust"@ ==> (json::get(old_doc, "revocations"@) matches Some(
                JsonView::Array(x),
            ) ==> new_doc is Some && (json::get(new_doc->0, "revocations"@) matches Some(
                JsonView::Array(y),
            ) && x.len() == y.len()))
            &&& service == "registry"@ && !(json::field(old_doc, "count"@) is Null) ==> new_doc
                is Some && json::alike(
                json::field(new_doc->0, "count"@),
                json::field(old_doc, "count"@),
            )
            &&& service == "log"@ && !(json::field(old_doc, "tree_size"@) is Null) ==> new_doc
                is Some && json::alike(
                json::field(new_doc->0, "tree_size"@),
                json::field(old_doc, "tree_size"@),
            )
        }),
{
    lemma_service_names();
    let service = before[i].service@;
    let b = all_readings(before, then);
    let a = all_readings(after, now);
    if service == "registry"@ || service == "trust"@ || service == "log"@ {
        lemma_readings(before, then, i);
        lemma_readings(after, now, j);
        let key = reading_name(service);
        let v = reading(service, before[i].domain);
        let w = reading(service, after[j].domain);
        let doc = http::document(before[i].domain)->0;
        if service == "trust"@ {
            if let Some(JsonView::Array(x)) = json::get(doc, "revocations"@) {
                json::law_alike_counts_are_equal(x.len(), x.len(), key, key);
                law_green_keeps_every_reading(b, a, pairs, key);
                assert(json::alike(w, v));
                if let Some(d) = http::document(after[j].domain) {
                    if let Some(JsonView::Array(y)) = json::get(d, "revocations"@) {
                        json::law_alike_counts_are_equal(y.len(), x.len(), key, key);
                    }
                }
            }
        } else if !(v is Null) {
            law_green_keeps_every_reading(b, a, pairs, key);
            assert(json::alike(w, v));
        }
    }
}

/// No journal is counted twice.
pub open spec fn count_once(journals: Seq<Journal>) -> bool {
    forall|i: int, j: int|
        0 <= i < j < journals.len() ==> (#[trigger] journals[i]).path@ != (
        #[trigger] journals[j]).path@
}

proof fn lemma_line_count(journals: Seq<Journal>, path: Seq<char>)
    requires
        count_once(journals),
    ensures
        line_counts(journals).contains_key(path) <==> exists|i: int|
            0 <= i < journals.len() && (#[trigger] journals[i]).path@ == path,
        forall|i: int|
            0 <= i < journals.len() && (#[trigger] journals[i]).path@ == path ==> line_counts(
                journals,
            )[path] == json::number(text::lines(journals[i].text@).len()),
    decreases journals.len(),
{
    if journals.len() > 0 {
        let rest = journals.drop_last();
        let last = journals.last();
        assert(count_once(rest)) by {
            assert forall|a: int, b: int| 0 <= a < b < rest.len() implies (
            #[trigger] rest[a]).path@ != (#[trigger] rest[b]).path@ by {
                assert(rest[a] == journals[a] && rest[b] == journals[b]);
            }
        }
        lemma_line_count(rest, path);
        assert(journals[journals.len() - 1] == last);
        if line_counts(journals).contains_key(path) && last.path@ != path {
            let i = choose|i: int| 0 <= i < rest.len() && (#[trigger] rest[i]).path@ == path;
            assert(journals[i].path@ == path);
        }
        assert forall|i: int|
            0 <= i < journals.len() && (#[trigger] journals[i]).path@ == path implies line_counts(
            journals,
        ).contains_key(path) && line_counts(journals)[path] == json::number(
            text::lines(journals[i].text@).len(),
        ) by {
            if i < rest.len() {
                assert(rest[i] == journals[i]);
                assert(journals[i].path@ != journals[journals.len() - 1].path@);
            }
        }
    }
}

/// An upgrade that loses or adds lines of a journal fails: in a green
/// rehearsal the same journals are there after it, each with as many lines.
pub proof fn law_green_keeps_every_line(
    before: Seq<Answers>,
    after: Seq<Answers>,
    then: Seq<Journal>,
    now: Seq<Journal>,
    pairs: Seq<Pair>,
    i: int,
)
    requires
        count_once(then),
        count_once(now),
        is_green(all_readings(before, then), all_readings(after, now), pairs),
        0 <= i < then.len(),
    ensures
        exists|j: int|
            0 <= j < now.len() && (#[trigger] now[j]).path@ == then[i].path@ && text::lines(
                now[j].text@,
            ).len() == text::lines(then[i].text@).len(),
{
    let path = then[i].path@;
    let x = line_counts(then);
    let y = line_counts(now);
    lemma_line_count(then, path);
    lemma_line_count(now, path);
    assert(json::get(all_readings(before, then), "journal_lines"@) == Some(JsonView::Object(x)));
    assert(json::get(all_readings(after, now), "journal_lines"@) == Some(JsonView::Object(y)));
    assert(json::alike(JsonView::Object(x), JsonView::Object(y)));
    assert(x.contains_key(path));
    assert(x.dom().contains(path));
    assert(y.contains_key(path));
    assert(json::alike(x[path], y[path]));
    let j = choose|j: int| 0 <= j < now.len() && (#[trigger] now[j]).path@ == path;
    json::law_alike_counts_are_equal(
        text::lines(then[i].text@).len(),
        text::lines(now[j].text@).len(),
        path,
        path,
    );
}

/// Every journal that a backup holds is counted: none of the deployment's
/// journals escapes the rehearsal.
pub proof fn law_every_journal_is_counted(
    names: Seq<Seq<char>>,
    run: Seq<TreeView>,
    tenants: Seq<TreeView>,
    path: Seq<char>,
    name: Seq<char>,
)
    ensures
        ({
            let counted = counted_journals(names, run, tenants);
            &&& names.contains("registry-journal.jsonl"@) ==> counted.contains(
                "registry-journal.jsonl"@,
            )
            &&& names.contains("jp-registry-journal.jsonl"@) ==> counted.contains(
                "jp-registry-journal.jsonl"@,
            )
            &&& listing::leads_to(run, path, name) && text::ends_with(name, "-journal.jsonl"@)
                ==> counted.contains("run/"@ + path)
            &&& listing::leads_to(tenants, path, name) && text::ends_with(name, ".jsonl"@)
                ==> counted.contains("tenants/"@ + path)
        }),
{
    let a = backup::if_present(names, "registry-journal.jsonl"@);
    let b = backup::if_present(names, "jp-registry-journal.jsonl"@);
    let c = backup::under("run"@, listing::walk(run, is_run_journal()));
    let d = backup::under("tenants"@, listing::walk(tenants, is_tenant_journal()));
    backup::lemma_dirs(path);
    assert forall|x: Seq<char>| #[trigger]
        counted_journals(names, run, tenants).contains(x) == (a.contains(x) || b.contains(x)
            || c.contains(x) || d.contains(x)) by {
        backup::lemma_in_both(a, b, x);
        backup::lemma_in_both(a + b, c, x);
        backup::lemma_in_both(a + b + c, d, x);
    }
    backup::lemma_in_present(names, "registry-journal.jsonl"@, "registry-journal.jsonl"@);
    backup::lemma_in_present(names, "jp-registry-journal.jsonl"@, "jp-registry-journal.jsonl"@);
    listing::law_walks_find_every_match(run, is_run_journal(), path);
    listing::law_walks_find_every_match(tenants, is_tenant_journal(), path);
    backup::lemma_in_under("run"@, listing::walk(run, is_run_journal()), "run/"@ + path);
    backup::lemma_in_under(
        "tenants"@,
        listing::walk(tenants, is_tenant_journal()),
        "tenants/"@ + path,
    );
    if listing::leads_to(run, path, name) && text::ends_with(name, "-journal.jsonl"@) {
        assert(is_run_journal()(name));
        assert(listing::walk(run, is_run_journal()).contains(path));
    }
    if listing::leads_to(tenants, path, name) && text::ends_with(name, ".jsonl"@) {
        assert(is_tenant_journal()(name));
        assert(listing::walk(tenants, is_tenant_journal()).contains(path));
    }
}

/// Each service is asked for its own state, and what it answers is kept under a
/// name of its own.
pub proof fn law_services_are_asked_for_their_state(doc: JsonView, reply: HttpText)
    requires
        reply.status == 200,
        json::parsed(reply.body@) == Ok::<JsonView, Seq<char>>(doc),
    ensures
        domain_path("registry"@) == Some("/items?limit=1"@),
        domain_path("trust"@) == Some("/revocations"@),
        domain_path("log"@) == Some("/tree/head"@),
        domain_path("resolver"@) == Some("/linksets?limit=1"@),
        reading_name("registry"@) == "registry_items"@,
        reading_name("trust"@) == "trust_revocations"@,
        reading_name("log"@) == "log_tree_size"@,
        reading_name("resolver"@) == "resolver_linksets"@,
        reading("registry"@, Some(reply)) == json::field(doc, "count"@),
        reading("log"@, Some(reply)) == json::field(doc, "tree_size"@),
        reading("resolver"@, Some(reply)) == json::field(doc, "count"@),
        json::field(doc, "revocations"@) is Array ==> reading("trust"@, Some(reply))
            == json::number(json::field(doc, "revocations"@)->Array_0.len()),
{
    lemma_service_names();
    reveal_strlit("registry");
    reveal_strlit("trust");
    reveal_strlit("log");
    reveal_strlit("resolver");
    assert("registry"@.len() == 8 && "registry"@[2] == 'g');
    assert("resolver"@.len() == 8 && "resolver"@[2] == 's');
    assert("trust"@.len() == 5);
    assert("log"@.len() == 3);
}

proof fn lemma_report_keys()
    ensures
        "upgrade"@ != "domain_readings_equal"@,
        "upgrade"@ != "journal_lines_equal"@,
        "upgrade"@ != "append_only"@,
        "upgrade"@ != "before"@,
        "upgrade"@ != "after"@,
        "upgrade"@ != "build_identity"@,
        "upgrade"@ != "result"@,
        "domain_readings_equal"@ != "journal_lines_equal"@,
        "domain_readings_equal"@ != "append_only"@,
        "domain_readings_equal"@ != "before"@,
        "domain_readings_equal"@ != "after"@,
        "domain_readings_equal"@ != "build_identity"@,
        "domain_readings_equal"@ != "result"@,
        "journal_lines_equal"@ != "append_only"@,
        "journal_lines_equal"@ != "before"@,
        "journal_lines_equal"@ != "after"@,
        "journal_lines_equal"@ != "build_identity"@,
        "journal_lines_equal"@ != "result"@,
        "before"@ != "after"@,
        "before"@ != "build_identity"@,
        "before"@ != "result"@,
        "after"@ != "build_identity"@,
        "after"@ != "result"@,
        "build_identity"@ != "result"@,
{
    reveal_strlit("upgrade");
    reveal_strlit("domain_readings_equal");
    reveal_strlit("journal_lines_equal");
    reveal_strlit("append_only");
    reveal_strlit("before");
    reveal_strlit("after");
    reveal_strlit("build_identity");
    reveal_strlit("result");
    assert("upgrade"@.len() == 7);
    assert("domain_readings_equal"@.len() == 21);
    assert("journal_lines_equal"@.len() == 19);
    assert("append_only"@.len() == 11);
    assert("before"@.len() == 6 && "before"@[0] == 'b');
    assert("after"@.len() == 5);
    assert("build_identity"@.len() == 14);
    assert("result"@.len() == 6 && "result"@[0] == 'r');
}

/// The report of a rehearsal tells both readings as they were taken, and green
/// only where the domain readings and the journals are the same and nothing but
/// appended to.
pub proof fn law_the_report_tells_both_readings(
    label: Seq<char>,
    before: JsonView,
    after: JsonView,
    pairs: Seq<Pair>,
)
    ensures
        ({
            let doc = upgrade_report(label, before, after, pairs);
            &&& json::field(doc, "upgrade"@) == JsonView::Text(label)
            &&& json::field(doc, "before"@) == before
            &&& json::field(doc, "after"@) == after
            &&& json::field(doc, "result"@) == JsonView::Text("GREEN"@) ==> {
                &&& json::field(doc, "domain_readings_equal"@) == JsonView::Bool(true)
                &&& json::field(doc, "journal_lines_equal"@) == JsonView::Bool(true)
            }
            &&& json::field(doc, "result"@) == JsonView::Text("GREEN"@) || json::field(
                doc,
                "result"@,
            ) == JsonView::Text("FAILED"@)
        }),
{
    lemma_report_keys();
    reveal_strlit("GREEN");
    reveal_strlit("FAILED");
    assert("GREEN"@.len() == 5 && "FAILED"@.len() == 6);
}

} // verus!
