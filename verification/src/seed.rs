//! The walkthrough seed's texts and documents: what is posted to the live
//! services and what is made of their answers.

use vstd::prelude::*;
use vstd::slice::*;
use vstd::string::*;

use crate::decimal;
use crate::decimal::decimal_of;
use crate::digest;
use crate::digest::sha256_hex;
use crate::http::HttpText;
use crate::json;
use crate::json::{compact, number_json, text_json, text_of_path, Fields, Json, JsonView};
use crate::order;
use crate::order::{put, sort};
use crate::text;
use crate::text::{cat3, cat5, chars_of, ends, joined, text_of};

verus! {

// ---------------------------------------------------------------------------
// Percent encoding.
// ---------------------------------------------------------------------------

/// A byte that stands for itself in a URL.
pub open spec fn is_unreserved(b: u8) -> bool {
    ||| 'A' as u8 <= b <= 'Z' as u8
    ||| 'a' as u8 <= b <= 'z' as u8
    ||| '0' as u8 <= b <= '9' as u8
    ||| b == '-' as u8
    ||| b == '.' as u8
    ||| b == '_' as u8
    ||| b == '~' as u8
}

/// An upper case hexadecimal digit.
pub open spec fn hex_upper(d: int) -> char {
    if d < 10 {
        ('0' as int + d) as char
    } else {
        ('A' as int + d - 10) as char
    }
}

/// How a byte stands in a URL.
pub open spec fn encoded_byte(b: u8) -> Seq<char> {
    if is_unreserved(b) {
        seq![b as char]
    } else {
        seq!['%', hex_upper(b as int / 16), hex_upper(b as int % 16)]
    }
}

/// Bytes percent-encoded: everything outside the unreserved set.
pub open spec fn percent(bytes: Seq<u8>) -> Seq<char>
    decreases bytes.len(),
{
    if bytes.len() == 0 {
        Seq::empty()
    } else {
        percent(bytes.drop_last()) + encoded_byte(bytes.last())
    }
}

fn upper_digit(d: u8) -> (r: char)
    requires
        d < 16,
    ensures
        r == hex_upper(d as int),
{
    if d < 10 {
        (48 + d) as char
    } else {
        (65 + (d - 10)) as char
    }
}

/// Percent-encode everything outside the unreserved set (the URNs ride URL
/// paths).
pub fn encode(value: &str) -> (r: String)
    ensures
        r@ == percent(vstd::utf8::encode_utf8(value@)),
{
    let bytes = value.as_bytes();
    let mut out = String::new();
    let mut i: usize = 0;
    assert(bytes@.take(0) =~= Seq::<u8>::empty());
    while i < bytes.len()
        invariant
            i <= bytes.len(),
            out@ == percent(bytes@.take(i as int)),
        decreases bytes.len() - i,
    {
        let b = bytes[i];
        let ghost before = out@;
        assert(bytes@.take(i + 1).drop_last() =~= bytes@.take(i as int));
        assert(bytes@.take(i + 1).last() == b);
        let c = b as char;
        if ('A' <= c && c <= 'Z') || ('a' <= c && c <= 'z') || ('0' <= c && c <= '9') || c == '-'
            || c == '.' || c == '_' || c == '~' {
            out.push(c);
        } else {
            out.push('%');
            out.push(upper_digit(b / 16));
            out.push(upper_digit(b % 16));
        }
        assert(out@ =~= before + encoded_byte(b));
        i += 1;
    }
    assert(bytes@.take(i as int) =~= bytes@);
    out
}

/// The value of an upper case hexadecimal digit.
pub open spec fn hex_value(c: char) -> int {
    if c <= '9' {
        c as int - '0' as int
    } else {
        c as int - 'A' as int + 10
    }
}

/// The bytes that a percent-encoded text stands for.
pub open spec fn decoded(s: Seq<char>) -> Seq<u8>
    decreases s.len(),
{
    if s.len() == 0 {
        Seq::empty()
    } else if s[0] == '%' && s.len() >= 3 {
        seq![(hex_value(s[1]) * 16 + hex_value(s[2])) as u8] + decoded(s.skip(3))
    } else {
        seq![s[0] as u8] + decoded(s.skip(1))
    }
}

proof fn lemma_decoded_byte(b: u8, rest: Seq<char>)
    ensures
        decoded(encoded_byte(b) + rest) == seq![b] + decoded(rest),
{
    let s = encoded_byte(b) + rest;
    if is_unreserved(b) {
        assert(s[0] == b as char);
        assert(s.skip(1) =~= rest);
        assert(s[0] as u8 == b);
    } else {
        assert(s[0] == '%');
        assert(s.skip(3) =~= rest);
        let h = b as int / 16;
        let l = b as int % 16;
        assert(s[1] == hex_upper(h) && s[2] == hex_upper(l));
        assert(hex_value(hex_upper(h)) == h);
        assert(hex_value(hex_upper(l)) == l);
        assert(h * 16 + l == b);
    }
}

proof fn lemma_decoded(bytes: Seq<u8>, rest: Seq<char>)
    ensures
        decoded(percent(bytes) + rest) == bytes + decoded(rest),
    decreases bytes.len(),
{
    if bytes.len() == 0 {
        assert(percent(bytes) + rest =~= rest);
        assert(bytes + decoded(rest) =~= decoded(rest));
    } else {
        let front = bytes.drop_last();
        let b = bytes.last();
        let tail = encoded_byte(b) + rest;
        lemma_decoded(front, tail);
        lemma_decoded_byte(b, rest);
        assert(percent(bytes) + rest =~= percent(front) + tail);
        assert(bytes + decoded(rest) =~= front + (seq![b] + decoded(rest)));
    }
}

/// A percent-encoded value can be decoded: the bytes come back, and so does
/// the text.
pub proof fn law_encoding_can_be_decoded(value: Seq<char>)
    ensures
        decoded(percent(vstd::utf8::encode_utf8(value))) == vstd::utf8::encode_utf8(value),
        vstd::utf8::decode_utf8(decoded(percent(vstd::utf8::encode_utf8(value)))) == value,
{
    let bytes = vstd::utf8::encode_utf8(value);
    lemma_decoded(bytes, Seq::empty());
    assert(percent(bytes) + Seq::<char>::empty() =~= percent(bytes));
    assert(bytes + decoded(Seq::empty()) =~= bytes);
    vstd::utf8::encode_utf8_decode_utf8(value);
}

// ---------------------------------------------------------------------------
// Answers.
// ---------------------------------------------------------------------------

/// The beginning of a text, at most so many characters of it.
pub open spec fn beginning(s: Seq<char>, n: int) -> Seq<char> {
    if s.len() <= n {
        s
    } else {
        s.take(n)
    }
}

/// The beginning of a text, at most so many characters of it.
pub fn beginning_of(s: &str, n: usize) -> (r: String)
    ensures
        r@ == beginning(s@, n as int),
{
    let chars = chars_of(s);
    if chars.len() <= n {
        s.to_string()
    } else {
        let part = slice_subrange(chars.as_slice(), 0, n);
        assert(part@ =~= s@.take(n as int));
        text_of(part)
    }
}

/// What is said of an answer that was not expected.
pub open spec fn unexpected(label: Seq<char>, status: nat, body: Seq<char>) -> Seq<char> {
    label + " -> "@ + decimal::decimal(status) + ": "@ + beginning(body, 300)
}

/// What is said of an answer that was not expected.
pub fn unexpected_text(label: &str, reply: &HttpText) -> (r: String)
    ensures
        r@ == unexpected(label@, reply.status as nat, reply.body@),
{
    cat5(
        label,
        " -> ",
        decimal_of(reply.status as u64).as_str(),
        ": ",
        beginning_of(reply.body.as_str(), 300).as_str(),
    )
}

/// The answer, if its status is an expected one.
pub fn expect_created(label: &str, reply: HttpText, ok: &[u16]) -> (r: Result<HttpText, String>)
    ensures
        match r {
            Ok(a) => ok@.contains(reply.status) && a == reply,
            Err(m) => !ok@.contains(reply.status) && m@ == unexpected(
                label@,
                reply.status as nat,
                reply.body@,
            ),
        },
{
    let mut i: usize = 0;
    while i < ok.len()
        invariant
            i <= ok.len(),
            forall|j: int| 0 <= j < i ==> ok@[j] != reply.status,
        decreases ok.len() - i,
    {
        if ok[i] == reply.status {
            assert(ok@[i as int] == reply.status);
            return Ok(reply);
        }
        i += 1;
    }
    Err(unexpected_text(label, &reply))
}

/// The path to the profile of an applicability record.
pub open spec fn profile_path() -> Seq<Seq<char>> {
    seq!["binding"@, "profile_item"@]
}

/// The profiles of applicability records.
pub open spec fn profile_set(items: Seq<JsonView>) -> Set<Seq<char>> {
    items.map_values(|item: JsonView| json::text_at(item, profile_path())).to_set()
}

/// The profiles that an applicability document names, in dictionary order and
/// each once.
pub open spec fn profiles(doc: JsonView) -> Seq<Seq<char>> {
    match json::field(doc, "applicability"@) {
        JsonView::Array(items) => order::listed(profile_set(items)),
        _ => Seq::empty(),
    }
}

/// The profiles that an applicability document names, in dictionary order and
/// each once.
pub fn sorted_profiles(doc: &Json) -> (r: Vec<String>)
    ensures
        text::views(r@) == profiles(doc@),
{
    let mut names: Vec<String> = Vec::new();
    assert(text::views(names@) =~= Seq::<Seq<char>>::empty());
    let list: &Json = match doc.get("applicability") {
        Some(v) => v,
        None => {
            return names;
        },
    };
    let items: &Vec<Json> = match list.as_array() {
        Some(items) => items,
        None => {
            return names;
        },
    };
    let ghost all = items@.map_values(|x: Json| x@);
    let ghost texts = all.map_values(|item: JsonView| json::text_at(item, profile_path()));
    let mut i: usize = 0;
    assert(texts.take(0).to_set() =~= text::views(names@).to_set());
    while i < items.len()
        invariant
            i <= items.len(),
            all == items@.map_values(|x: Json| x@),
            texts == all.map_values(|item: JsonView| json::text_at(item, profile_path())),
            order::ascending(text::views(names@)),
            text::views(names@).to_set() == texts.take(i as int).to_set(),
        decreases items.len() - i,
    {
        let path: [&str; 2] = ["binding", "profile_item"];
        assert(json::path_view(path@) =~= profile_path());
        put(&mut names, text_of_path(&items[i], path.as_slice()));
        assert(texts.take(i + 1) =~= texts.take(i as int).push(texts[i as int]));
        proof {
            texts.take(i as int).lemma_push_to_set_commute(texts[i as int]);
        }
        i += 1;
    }
    assert(texts.take(i as int) =~= texts);
    proof {
        order::lemma_listed(text::views(names@));
    }
    names
}

/// The name of a JSON file: it ends so, and has something before.
pub open spec fn is_json_file() -> spec_fn(Seq<char>) -> bool {
    |name: Seq<char>| text::ends_with(name, ".json"@) && name.len() > ".json"@.len()
}

/// The JSON files among the names of a directory, in dictionary order.
pub fn sorted_json_files(names: &Vec<String>) -> (r: Vec<String>)
    ensures
        text::views(r@) == order::sorted(text::views(names@).filter(is_json_file())),
{
    let ghost all = text::views(names@);
    let suffix = chars_of(".json");
    let mut kept: Vec<String> = Vec::new();
    let mut i: usize = 0;
    proof {
        reveal(Seq::filter);
        assert(all.take(0).filter(is_json_file()) =~= Seq::<Seq<char>>::empty());
        assert(text::views(kept@) =~= Seq::<Seq<char>>::empty());
    }
    while i < names.len()
        invariant
            i <= names.len(),
            suffix@ == ".json"@,
            all == text::views(names@),
            text::views(kept@) == all.take(i as int).filter(is_json_file()),
        decreases names.len() - i,
    {
        proof {
            reveal(Seq::filter);
            assert(all.take(i + 1).drop_last() =~= all.take(i as int));
            assert(all.take(i + 1).last() == names@[i as int]@);
        }
        let ghost before = text::views(kept@);
        let chars = chars_of(names[i].as_str());
        if ends(chars.as_slice(), suffix.as_slice()) && chars.len() > suffix.len() {
            kept.push(names[i].clone());
            assert(text::views(kept@) =~= before.push(names@[i as int]@));
        }
        i += 1;
    }
    assert(all.take(i as int) =~= all);
    sort(&kept)
}

/// The name of a demo artifact.
pub open spec fn is_artifact() -> spec_fn(Seq<char>) -> bool {
    |name: Seq<char>| text::ends_with(name, ".json"@) || text::ends_with(name, ".hex"@)
}

/// The demo artifacts among the names of a directory, in dictionary order.
pub fn sorted_artifacts(names: &Vec<String>) -> (r: Vec<String>)
    ensures
        text::views(r@) == order::sorted(text::views(names@).filter(is_artifact())),
{
    let ghost all = text::views(names@);
    let one = chars_of(".json");
    let other = chars_of(".hex");
    let mut kept: Vec<String> = Vec::new();
    let mut i: usize = 0;
    proof {
        reveal(Seq::filter);
        assert(all.take(0).filter(is_artifact()) =~= Seq::<Seq<char>>::empty());
        assert(text::views(kept@) =~= Seq::<Seq<char>>::empty());
    }
    while i < names.len()
        invariant
            i <= names.len(),
            one@ == ".json"@,
            other@ == ".hex"@,
            all == text::views(names@),
            text::views(kept@) == all.take(i as int).filter(is_artifact()),
        decreases names.len() - i,
    {
        proof {
            reveal(Seq::filter);
            assert(all.take(i + 1).drop_last() =~= all.take(i as int));
            assert(all.take(i + 1).last() == names@[i as int]@);
        }
        let ghost before = text::views(kept@);
        let chars = chars_of(names[i].as_str());
        if ends(chars.as_slice(), one.as_slice()) || ends(chars.as_slice(), other.as_slice()) {
            kept.push(names[i].clone());
            assert(text::views(kept@) =~= before.push(names@[i as int]@));
        }
        i += 1;
    }
    assert(all.take(i as int) =~= all);
    sort(&kept)
}

/// One count of a discovery seed.
pub open spec fn count_text(map: Map<Seq<char>, JsonView>, key: Seq<char>) -> Seq<char> {
    key + "="@ + json::compact_text(map[key])
}

/// What a discovery seed's answer counts.
pub open spec fn counts(doc: JsonView) -> Seq<char> {
    match json::field(doc, "counts"@) {
        JsonView::Object(map) => text::join(
            order::listed(map.dom()).map_values(|key: Seq<char>| count_text(map, key)),
            ", "@,
        ),
        _ => Seq::empty(),
    }
}

/// What a discovery seed's answer counts.
pub fn counts_of(doc: &Json) -> (r: String)
    ensures
        r@ == counts(doc@),
{
    let entries: Option<Vec<(String, Json)>> = match doc.get("counts") {
        Some(v) => v.entries(),
        None => None,
    };
    match entries {
        None => String::new(),
        Some(list) => {
            let ghost map = json::field(doc@, "counts"@)->Object_0;
            let ghost keys = order::listed(map.dom());
            let mut parts: Vec<String> = Vec::new();
            let mut i: usize = 0;
            while i < list.len()
                invariant
                    i <= list.len(),
                    json::keys_of(list@) == keys,
                    forall|k: int|
                        0 <= k < list@.len() ==> (#[trigger] list@[k]).1@ == map[list@[k].0@],
                    parts@.len() == i,
                    forall|k: int| 0 <= k < i ==> (#[trigger] parts@[k])@ == count_text(map, keys[k]),
                decreases list.len() - i,
            {
                assert(json::keys_of(list@)[i as int] == list@[i as int].0@);
                parts.push(cat3(list[i].0.as_str(), "=", compact(&list[i].1).as_str()));
                i += 1;
            }
            assert(json::keys_of(list@).len() == list@.len());
            assert(text::views(parts@) =~= keys.map_values(
                |key: Seq<char>| count_text(map, key),
            ));
            joined(parts.as_slice(), ", ")
        },
    }
}

// ---------------------------------------------------------------------------
// Documents.
// ---------------------------------------------------------------------------

pub const REGISTRY: u16 = 8390;

pub const ISSUER: u16 = 8393;

pub const PROJECTOR: u16 = 8394;

pub const GATEWAY: u16 = 8395;

pub const ARCHIVE: u16 = 8396;

pub const DEMO_ID: &'static str = "local:momiji:e8/J-000842";

pub const DEMO_TYPE_REF: &'static str = "momiji:e8";

pub const DEMO_URN: &'static str = "urn:unidpp:passport:pilot-e8-j000842";

pub const DEMO_EO: &'static str = "urn:unidpp:actor:momiji-mobility";

pub const EU_LENS: &'static str = "urn:unidpp:profile:pilot-eu-lens";

pub const JP_LENS: &'static str = "urn:unidpp:profile:pilot-jp-lens";

pub const GTIN_FIXTURE: &'static str = "4006381333931";

pub const VIEW_AT: &'static str = "2028-06-01T00:00:00Z";

/// The document that creates the demo passport.
pub open spec fn creation() -> JsonView {
    JsonView::Object(
        map![
            "identity"@ => JsonView::Text(DEMO_ID@),
            "type_ref"@ => JsonView::Text(DEMO_TYPE_REF@),
            "capability"@ => JsonView::Text("S2"@),
            "eo_id"@ => JsonView::Text(DEMO_EO@),
            "resolver_uri"@ => JsonView::Text("https://resolver.unidpp.org/r/pilot-e8-j000842"@),
            "passport_id"@ => JsonView::Text(DEMO_URN@),
            "config"@ => JsonView::Array(seq![
                JsonView::Text("urn:unidpp:profile:eu-machinery-battery"@),
                JsonView::Text("urn:unidpp:profile:jp-road-traffic"@),
            ]),
        ],
    )
}

/// The body that creates the demo passport.
pub fn creation_body() -> (r: String)
    ensures
        r@ == json::compact_text(creation()),
{
    let mut config: Vec<Json> = Vec::new();
    config.push(text_json("urn:unidpp:profile:eu-machinery-battery"));
    config.push(text_json("urn:unidpp:profile:jp-road-traffic"));
    let ghost items = config@;
    let list = Json::Array(config);
    proof {
        json::lemma_models(items);
        assert(Json::models(items) =~= seq![
            JsonView::Text("urn:unidpp:profile:eu-machinery-battery"@),
            JsonView::Text("urn:unidpp:profile:jp-road-traffic"@),
        ]);
    }
    let mut fields = Fields::new();
    fields.put("identity", text_json(DEMO_ID));
    fields.put("type_ref", text_json(DEMO_TYPE_REF));
    fields.put("capability", text_json("S2"));
    fields.put("eo_id", text_json(DEMO_EO));
    fields.put("resolver_uri", text_json("https://resolver.unidpp.org/r/pilot-e8-j000842"));
    fields.put("passport_id", text_json(DEMO_URN));
    fields.put("config", list);
    compact(&fields.done())
}

/// An event of the demo passport's log, as mathematics.
pub struct EventView {
    pub token: Seq<char>,
    pub data: JsonView,
    pub actor: Seq<char>,
    pub role: Seq<char>,
    pub at: Seq<char>,
}

/// The data of a correction.
pub open spec fn correction(field: Seq<char>, value: Seq<char>, reason: Seq<char>) -> JsonView {
    JsonView::Object(
        map![
            "Correction"@ => JsonView::Object(
                map![
                    "field"@ => JsonView::Text(field),
                    "prior_value"@ => JsonView::Text(""@),
                    "new_value"@ => JsonView::Text(value),
                    "reason"@ => JsonView::Text(reason),
                ],
            ),
        ],
    )
}

/// The data of the issuance.
pub open spec fn issuance() -> JsonView {
    JsonView::Object(
        map![
            "Issuance"@ => JsonView::Object(
                map![
                    "derived"@ => JsonView::Bool(false),
                    "inputs"@ => JsonView::Array(Seq::empty()),
                ],
            ),
        ],
    )
}

/// The data of the milestone.
pub open spec fn milestone() -> JsonView {
    JsonView::Object(
        map![
            "MilestoneRecord"@ => JsonView::Object(
                map![
                    "counters"@ => JsonView::Object(
                        map![
                            "de.dpp.reparability-score"@ => JsonView::Text("8.1"@),
                            "de.dpp.carbon-footprint"@ => JsonView::Text("96.4"@),
                            "battery.capacity-kwh"@ => JsonView::Text("0.72"@),
                        ],
                    ),
                ],
            ),
        ],
    )
}

/// The number of events in the demo passport's log.
pub const EVENTS: u8 = 5;

/// The events of the demo passport's log, in order. The milestone is stamped
/// at seed time.
pub open spec fn event(i: int, now: Seq<char>) -> EventView {
    if i == 0 {
        EventView {
            token: "issuance"@,
            data: issuance(),
            actor: "momiji-mobility"@,
            role: "issuing authority"@,
            at: "2026-07-14T08:00:00Z"@,
        }
    } else if i == 1 {
        EventView {
            token: "correction"@,
            data: correction(
                "subject.markets"@,
                "EU,JP"@,
                "market placement declaration (EU, JP)"@,
            ),
            actor: "momiji-mobility"@,
            role: "economic operator"@,
            at: "2026-07-14T09:00:00Z"@,
        }
    } else if i == 2 {
        EventView {
            token: "correction"@,
            data: correction(
                "de.dpp.operator-id"@,
                "urn:unidpp:actor:momiji-mobility"@,
                "EU/JP DPP operator identifier"@,
            ),
            actor: "momiji-mobility"@,
            role: "economic operator"@,
            at: "2026-07-14T09:05:00Z"@,
        }
    } else if i == 3 {
        EventView {
            token: "correction"@,
            data: correction(
                "de.jp.type-approval-mark"@,
                "jp-epac-type-2027"@,
                "JP road-traffic EPAC type approval"@,
            ),
            actor: "momiji-type-approval"@,
            role: "issuing authority"@,
            at: "2026-07-14T09:10:00Z"@,
        }
    } else {
        EventView {
            token: "milestone.record"@,
            data: milestone(),
            actor: "e8-bms-controller"@,
            role: "device"@,
            at: now,
        }
    }
}

/// The document that appends an event.
pub open spec fn event_doc(e: EventView) -> JsonView {
    JsonView::Object(
        map![
            "type"@ => JsonView::Text(e.token),
            "data"@ => e.data,
            "actor"@ => JsonView::Text(e.actor),
            "actor_role"@ => JsonView::Text(e.role),
            "at"@ => JsonView::Text(e.at),
        ],
    )
}

fn correction_json(field: &str, value: &str, reason: &str) -> (r: Json)
    ensures
        r@ == correction(field@, value@, reason@),
{
    let mut inner = Fields::new();
    inner.put("field", text_json(field));
    inner.put("prior_value", text_json(""));
    inner.put("new_value", text_json(value));
    inner.put("reason", text_json(reason));
    let mut fields = Fields::new();
    fields.put("Correction", inner.done());
    fields.done()
}

fn issuance_json() -> (r: Json)
    ensures
        r@ == issuance(),
{
    let inputs = Json::Array(Vec::new());
    assert(inputs@ == JsonView::Array(Seq::empty()));
    let mut inner = Fields::new();
    inner.put("derived", Json::Bool(false));
    inner.put("inputs", inputs);
    let mut fields = Fields::new();
    fields.put("Issuance", inner.done());
    fields.done()
}

fn milestone_json() -> (r: Json)
    ensures
        r@ == milestone(),
{
    let mut counters = Fields::new();
    counters.put("de.dpp.reparability-score", text_json("8.1"));
    counters.put("de.dpp.carbon-footprint", text_json("96.4"));
    counters.put("battery.capacity-kwh", text_json("0.72"));
    let mut inner = Fields::new();
    inner.put("counters", counters.done());
    let mut fields = Fields::new();
    fields.put("MilestoneRecord", inner.done());
    fields.done()
}

fn event_json(token: &str, data: Json, actor: &str, role: &str, at: &str) -> (r: Json)
    ensures
        r@ == event_doc(
            EventView { token: token@, data: data@, actor: actor@, role: role@, at: at@ },
        ),
{
    let mut fields = Fields::new();
    fields.put("type", text_json(token));
    fields.put("data", data);
    fields.put("actor", text_json(actor));
    fields.put("actor_role", text_json(role));
    fields.put("at", text_json(at));
    fields.done()
}

/// The type of an event of the demo passport's log.
pub fn event_token(i: u8) -> (r: &'static str)
    ensures
        forall|now: Seq<char>| r@ == (#[trigger] event(i as int, now)).token,
{
    if i == 0 {
        "issuance"
    } else if i < 4 {
        "correction"
    } else {
        "milestone.record"
    }
}

/// The body that appends an event of the demo passport's log.
pub fn event_body(i: u8, now: &str) -> (r: String)
    ensures
        r@ == json::compact_text(event_doc(event(i as int, now@))),
{
    let doc = if i == 0 {
        event_json(
            "issuance",
            issuance_json(),
            "momiji-mobility",
            "issuing authority",
            "2026-07-14T08:00:00Z",
        )
    } else if i == 1 {
        event_json(
            "correction",
            correction_json("subject.markets", "EU,JP", "market placement declaration (EU, JP)"),
            "momiji-mobility",
            "economic operator",
            "2026-07-14T09:00:00Z",
        )
    } else if i == 2 {
        event_json(
            "correction",
            correction_json(
                "de.dpp.operator-id",
                "urn:unidpp:actor:momiji-mobility",
                "EU/JP DPP operator identifier",
            ),
            "momiji-mobility",
            "economic operator",
            "2026-07-14T09:05:00Z",
        )
    } else if i == 3 {
        event_json(
            "correction",
            correction_json(
                "de.jp.type-approval-mark",
                "jp-epac-type-2027",
                "JP road-traffic EPAC type approval",
            ),
            "momiji-type-approval",
            "issuing authority",
            "2026-07-14T09:10:00Z",
        )
    } else {
        event_json("milestone.record", milestone_json(), "e8-bms-controller", "device", now)
    };
    compact(&doc)
}

/// The document that asks for a snapshot of the passport.
pub open spec fn snapshot(view: Seq<char>, log_head: Seq<char>) -> JsonView {
    JsonView::Object(
        map![
            "passport_id"@ => JsonView::Text(DEMO_URN@),
            "state_hash"@ => JsonView::Text(digest::checksum(vstd::utf8::encode_utf8(view))),
            "log_head"@ => JsonView::Text(log_head),
            "submitter"@ => JsonView::Text("urn:unidpp:actor:pilot-operator"@),
            "state_size"@ => json::number(0),
        ],
    )
}

/// The body that asks for a snapshot of the passport, whose view is notarized
/// by its checksum.
pub fn snapshot_body(view: &str, log_head: &str) -> (r: String)
    ensures
        r@ == json::compact_text(snapshot(view@, log_head@)),
        exists|doc: JsonView|
            {
                &&& r@ == #[trigger] json::compact_text(doc)
                &&& json::field(doc, "passport_id"@) == json::field(creation(), "passport_id"@)
                &&& json::field(doc, "state_hash"@) == JsonView::Text(
                    digest::checksum(vstd::utf8::encode_utf8(view@)),
                )
                &&& json::field(doc, "log_head"@) == JsonView::Text(log_head@)
            },
{
    proof {
        law_a_snapshot_is_of_the_created_passport(view@, log_head@);
    }
    let mut fields = Fields::new();
    fields.put("passport_id", text_json(DEMO_URN));
    fields.put("state_hash", text_json(sha256_hex(view.as_bytes()).as_str()));
    fields.put("log_head", text_json(log_head));
    fields.put("submitter", text_json("urn:unidpp:actor:pilot-operator"));
    fields.put("state_size", number_json(0));
    compact(&fields.done())
}

// ---------------------------------------------------------------------------
// What holds of the documents.
// ---------------------------------------------------------------------------

proof fn lemma_snapshot_keys()
    ensures
        "passport_id"@ != "state_hash"@,
        "passport_id"@ != "log_head"@,
        "passport_id"@ != "submitter"@,
        "passport_id"@ != "state_size"@,
        "passport_id"@ != "config"@,
        "passport_id"@ != "identity"@,
        "passport_id"@ != "type_ref"@,
        "passport_id"@ != "eo_id"@,
        "passport_id"@ != "resolver_uri"@,
        "state_hash"@ != "log_head"@,
        "state_hash"@ != "submitter"@,
        "state_hash"@ != "state_size"@,
        "log_head"@ != "submitter"@,
        "log_head"@ != "state_size"@,
        "submitter"@ != "state_size"@,
        "eo_id"@ != "config"@,
        "eo_id"@ != "resolver_uri"@,
        "resolver_uri"@ != "config"@,
        "identity"@ != "type_ref"@,
        "identity"@ != "capability"@,
        "identity"@ != "eo_id"@,
        "identity"@ != "resolver_uri"@,
        "identity"@ != "config"@,
        "type_ref"@ != "capability"@,
        "type_ref"@ != "eo_id"@,
        "type_ref"@ != "resolver_uri"@,
        "type_ref"@ != "config"@,
{
    reveal_strlit("passport_id");
    reveal_strlit("state_hash");
    reveal_strlit("log_head");
    reveal_strlit("submitter");
    reveal_strlit("state_size");
    reveal_strlit("config");
    reveal_strlit("identity");
    reveal_strlit("type_ref");
    reveal_strlit("capability");
    reveal_strlit("eo_id");
    reveal_strlit("resolver_uri");
    assert("passport_id"@.len() == 11);
    assert("state_hash"@.len() == 10 && "state_hash"@[6] == 'h');
    assert("log_head"@.len() == 8 && "log_head"@[0] == 'l');
    assert("submitter"@.len() == 9);
    assert("state_size"@.len() == 10 && "state_size"@[6] == 's');
    assert("config"@.len() == 6);
    assert("identity"@.len() == 8 && "identity"@[0] == 'i');
    assert("type_ref"@.len() == 8 && "type_ref"@[0] == 't');
    assert("capability"@.len() == 10);
    assert("eo_id"@.len() == 5);
    assert("resolver_uri"@.len() == 12);
}

/// A snapshot is of the passport that was created: both documents name the same
/// passport, whatever view is notarized; and it notarizes the view by the
/// checksum of its bytes, at the head of the log that it is given.
pub proof fn law_a_snapshot_is_of_the_created_passport(view: Seq<char>, log_head: Seq<char>)
    ensures
        json::field(snapshot(view, log_head), "passport_id"@) == json::field(
            creation(),
            "passport_id"@,
        ),
        json::field(creation(), "passport_id"@) == JsonView::Text(
            "urn:unidpp:passport:pilot-e8-j000842"@,
        ),
        json::field(snapshot(view, log_head), "state_hash"@) == JsonView::Text(
            digest::checksum(vstd::utf8::encode_utf8(view)),
        ),
        json::field(snapshot(view, log_head), "log_head"@) == JsonView::Text(log_head),
        json::field(snapshot(view, log_head), "submitter"@) == JsonView::Text(
            "urn:unidpp:actor:pilot-operator"@,
        ),
{
    lemma_snapshot_keys();
}

/// The created passport is one: its identity is an item of its type, it can be
/// resolved under the last part of its URN, and it is its operator that the log
/// then names.
pub proof fn law_the_created_passport_is_consistent(now: Seq<char>)
    ensures
        json::field(creation(), "identity"@) == JsonView::Text("local:momiji:e8/J-000842"@),
        json::field(creation(), "type_ref"@) == JsonView::Text("momiji:e8"@),
        json::field(creation(), "identity"@)->Text_0 == "local:"@ + json::field(
            creation(),
            "type_ref"@,
        )->Text_0 + "/J-000842"@,
        exists|part: Seq<char>|
            #![trigger "urn:unidpp:passport:"@ + part]
            json::field(creation(), "passport_id"@) == JsonView::Text(
                "urn:unidpp:passport:"@ + part,
            ) && json::field(creation(), "resolver_uri"@) == JsonView::Text(
                "https://resolver.unidpp.org/r/"@ + part,
            ),
        json::field(
            json::field(event(2, now).data, "Correction"@),
            "new_value"@,
        ) == json::field(creation(), "eo_id"@),
        json::field(creation(), "eo_id"@) == JsonView::Text("urn:unidpp:actor:momiji-mobility"@),
{
    lemma_snapshot_keys();
    lemma_correction_keys();
    reveal_strlit("local:momiji:e8/J-000842");
    reveal_strlit("local:");
    reveal_strlit("momiji:e8");
    reveal_strlit("/J-000842");
    assert("local:"@ + "momiji:e8"@ + "/J-000842"@ =~= "local:momiji:e8/J-000842"@);
    reveal_strlit("urn:unidpp:passport:");
    reveal_strlit("urn:unidpp:passport:pilot-e8-j000842");
    reveal_strlit("https://resolver.unidpp.org/r/");
    reveal_strlit("https://resolver.unidpp.org/r/pilot-e8-j000842");
    reveal_strlit("pilot-e8-j000842");
    let part = "pilot-e8-j000842"@;
    assert("urn:unidpp:passport:"@ + part =~= "urn:unidpp:passport:pilot-e8-j000842"@);
    assert("https://resolver.unidpp.org/r/"@ + part
        =~= "https://resolver.unidpp.org/r/pilot-e8-j000842"@);
}

proof fn lemma_correction_keys()
    ensures
        "field"@ != "prior_value"@,
        "field"@ != "new_value"@,
        "field"@ != "reason"@,
        "prior_value"@ != "new_value"@,
        "prior_value"@ != "reason"@,
        "new_value"@ != "reason"@,
        "type"@ != "data"@,
        "type"@ != "actor"@,
        "type"@ != "actor_role"@,
        "type"@ != "at"@,
        "data"@ != "actor"@,
        "data"@ != "actor_role"@,
        "data"@ != "at"@,
        "actor"@ != "actor_role"@,
        "actor"@ != "at"@,
        "actor_role"@ != "at"@,
{
    reveal_strlit("field");
    reveal_strlit("prior_value");
    reveal_strlit("new_value");
    reveal_strlit("reason");
    reveal_strlit("type");
    reveal_strlit("data");
    reveal_strlit("actor");
    reveal_strlit("actor_role");
    reveal_strlit("at");
    assert("field"@.len() == 5);
    assert("prior_value"@.len() == 11);
    assert("new_value"@.len() == 9);
    assert("reason"@.len() == 6);
    assert("type"@.len() == 4 && "type"@[0] == 't');
    assert("data"@.len() == 4 && "data"@[0] == 'd');
    assert("actor"@.len() == 5);
    assert("actor_role"@.len() == 10);
    assert("at"@.len() == 2);
}

/// The document of an event holds the event, part by part, and a correction
/// holds what it corrects.
pub proof fn law_event_documents_hold_their_events(
    e: EventView,
    field: Seq<char>,
    value: Seq<char>,
    reason: Seq<char>,
)
    ensures
        json::field(event_doc(e), "type"@) == JsonView::Text(e.token),
        json::field(event_doc(e), "data"@) == e.data,
        json::field(event_doc(e), "actor"@) == JsonView::Text(e.actor),
        json::field(event_doc(e), "actor_role"@) == JsonView::Text(e.role),
        json::field(event_doc(e), "at"@) == JsonView::Text(e.at),
        ({
            let inner = json::field(correction(field, value, reason), "Correction"@);
            &&& json::field(inner, "field"@) == JsonView::Text(field)
            &&& json::field(inner, "prior_value"@) == JsonView::Text(""@)
            &&& json::field(inner, "new_value"@) == JsonView::Text(value)
            &&& json::field(inner, "reason"@) == JsonView::Text(reason)
        }),
{
    lemma_correction_keys();
}

/// Texts that agree up to a place are in the order of what they have there.
proof fn lemma_later(a: Seq<char>, b: Seq<char>, n: int)
    requires
        0 <= n < a.len(),
        n < b.len(),
        a.take(n) == b.take(n),
        a[n] < b[n],
    ensures
        order::le(a, b),
        !order::le(b, a),
    decreases n,
{
    if n > 0 {
        assert(a[0] == a.take(n)[0] && b[0] == b.take(n)[0]);
        assert(a.skip(1).take(n - 1) =~= a.take(n).skip(1));
        assert(b.skip(1).take(n - 1) =~= b.take(n).skip(1));
        lemma_later(a.skip(1), b.skip(1), n - 1);
    }
}

/// The log begins with the issuance; corrections follow, all dated on one day,
/// each after the event before it; the milestone comes last, and it is stamped
/// with the time of the seeding.
pub proof fn law_the_log_is_in_order(now: Seq<char>, i: int, j: int)
    requires
        0 <= i < j < EVENTS,
    ensures
        EVENTS == 5,
        event(0, now).token == "issuance"@,
        0 < i < 4 ==> event(i, now).token == "correction"@,
        event(4, now).token == "milestone.record"@,
        j < 4 ==> order::le(event(i, now).at, event(j, now).at) && !order::le(
            event(j, now).at,
            event(i, now).at,
        ),
        text::starts_with(event(i, now).at, "2026-07-14T"@),
        event(4, now).at == now,
{
    reveal_strlit("2026-07-14T");
    reveal_strlit("2026-07-14T08:00:00Z");
    reveal_strlit("2026-07-14T09:00:00Z");
    reveal_strlit("2026-07-14T09:05:00Z");
    reveal_strlit("2026-07-14T09:10:00Z");
    let a = event(0, now).at;
    let b = event(1, now).at;
    let c = event(2, now).at;
    let d = event(3, now).at;
    assert(a.take(11) =~= "2026-07-14T"@);
    assert(b.take(11) =~= "2026-07-14T"@);
    assert(c.take(11) =~= "2026-07-14T"@);
    assert(d.take(11) =~= "2026-07-14T"@);
    assert(a.take(12) =~= b.take(12) && a.take(12) =~= c.take(12) && a.take(12) =~= d.take(12));
    lemma_later(a, b, 12);
    lemma_later(a, c, 12);
    lemma_later(a, d, 12);
    assert(b.take(15) =~= c.take(15));
    lemma_later(b, c, 15);
    assert(b.take(14) =~= d.take(14) && c.take(14) =~= d.take(14));
    lemma_later(b, d, 14);
    lemma_later(c, d, 14);
}

/// Who says what in the log: the operator issues the passport, places it on its
/// markets and gives the operator's identifier; the type approval is given by
/// its authority; and the counters are the device's.
pub proof fn law_events_are_said_by_those_who_may(now: Seq<char>)
    ensures
        event(0, now).actor == "momiji-mobility"@,
        event(0, now).role == "issuing authority"@,
        event(0, now).data == issuance(),
        event(1, now).actor == event(0, now).actor,
        event(2, now).actor == event(0, now).actor,
        event(1, now).role == "economic operator"@,
        event(2, now).role == "economic operator"@,
        event(1, now).data == correction(
            "subject.markets"@,
            "EU,JP"@,
            "market placement declaration (EU, JP)"@,
        ),
        event(2, now).data == correction(
            "de.dpp.operator-id"@,
            json::field(creation(), "eo_id"@)->Text_0,
            "EU/JP DPP operator identifier"@,
        ),
        event(3, now).actor == "momiji-type-approval"@,
        event(3, now).role == "issuing authority"@,
        event(3, now).data == correction(
            "de.jp.type-approval-mark"@,
            "jp-epac-type-2027"@,
            "JP road-traffic EPAC type approval"@,
        ),
        event(4, now).actor == "e8-bms-controller"@,
        event(4, now).role == "device"@,
        event(4, now).data == milestone(),
{
    lemma_snapshot_keys();
}

} // verus!
