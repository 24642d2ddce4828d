//! The loopback HTTP client's texts: what is sent to a service and what is
//! made of its answer.

use vstd::prelude::*;
use vstd::slice::*;
use vstd::string::*;

use crate::decimal;
use crate::decimal::{decimal_of, parsed_number};
use crate::json;
use crate::json::{parse_json, plain, Json};
use crate::text;
use crate::text::{cat4, chars_of, position, text_from, text_of, words_of};

verus! {

/// What a service answered.
pub struct HttpText {
    pub status: u16,
    pub body: String,
}

/// The text of a request to a loopback port.
pub open spec fn request_text(
    method: Seq<char>,
    port: nat,
    path: Seq<char>,
    body: Seq<char>,
) -> Seq<char> {
    method + " "@ + path + " HTTP/1.1\r\nHost: 127.0.0.1:"@ + decimal::decimal(port)
        + "\r\nConnection: close\r\ncontent-type: application/json\r\ncontent-length: "@
        + decimal::decimal(vstd::utf8::encode_utf8(body).len()) + "\r\n\r\n"@ + body
}

/// The text of a request to a loopback port.
pub fn request(method: &str, port: u16, path: &str, body: Option<&str>) -> (r: String)
    ensures
        r@ == request_text(
            method@,
            port as nat,
            path@,
            match body {
                Some(b) => b@,
                None => ""@,
            },
        ),
{
    let content: &str = match body {
        Some(b) => b,
        None => "",
    };
    proof {
        reveal_strlit("");
        assert(vstd::utf8::encode_utf8(Seq::<char>::empty()).len() == 0);
        assert(""@ =~= Seq::<char>::empty());
    }
    let length: usize = content.as_bytes().len();
    let mut out = cat4(method, " ", path, " HTTP/1.1\r\nHost: 127.0.0.1:");
    out.append(decimal_of(port as u64).as_str());
    out.append("\r\nConnection: close\r\ncontent-type: application/json\r\ncontent-length: ");
    out.append(decimal_of(length as u64).as_str());
    out.append("\r\n\r\n");
    out.append(content);
    out
}

/// The text of a GET request.
pub fn get(port: u16, path: &str) -> (r: String)
    ensures
        r@ == request_text("GET"@, port as nat, path@, ""@),
{
    request("GET", port, path, None)
}

/// The text of a POST request.
pub fn post(port: u16, path: &str, body: &str) -> (r: String)
    ensures
        r@ == request_text("POST"@, port as nat, path@, body@),
{
    request("POST", port, path, Some(body))
}

/// What stands between the first empty line of an answer and the second.
pub open spec fn body_of(answer: Seq<char>) -> Seq<char> {
    match text::find(answer, "\r\n\r\n"@) {
        None => Seq::empty(),
        Some(i) => {
            let rest = answer.skip(i + "\r\n\r\n"@.len());
            match text::find(rest, "\r\n\r\n"@) {
                None => rest,
                Some(j) => rest.take(j),
            }
        },
    }
}

/// The status of an answer: its second word, if it is a number.
pub open spec fn status_of(answer: Seq<char>) -> Option<nat> {
    let words = text::words(answer);
    if words.len() > 1 {
        decimal::parse_number(words[1], u16::MAX as nat)
    } else {
        None
    }
}

/// What a service's answer says, if it is an answer.
pub fn response(raw: &[u8]) -> (r: Option<HttpText>)
    ensures
        match r {
            Some(reply) => status_of(text::lossy(raw@)) == Some(reply.status as nat)
                && reply.body@ == body_of(text::lossy(raw@)),
            None => status_of(text::lossy(raw@)) is None,
        },
{
    let answer = text_from(raw);
    let chars = chars_of(answer.as_str());
    let all = chars.as_slice();
    let words = words_of(all);
    if words.len() < 2 {
        assert(text::views(words@).len() < 2);
        return None;
    }
    assert(text::views(words@)[1] == words@[1]@);
    let status: u64 = match parsed_number(chars_of(words[1].as_str()).as_slice(), u16::MAX as u64) {
        Some(n) => n,
        None => {
            return None;
        },
    };
    let sep = chars_of("\r\n\r\n");
    let body: String = match position(all, sep.as_slice()) {
        None => String::new(),
        Some(i) => {
            proof {
                text::lemma_find(all@, sep@);
            }
            let total: usize = all.len();
            assert(i + sep@.len() <= total);
            let rest = slice_subrange(all, i + sep.len(), total);
            assert(rest@ =~= all@.skip(i + "\r\n\r\n"@.len()));
            match position(rest, sep.as_slice()) {
                None => text_of(rest),
                Some(j) => {
                    proof {
                        text::lemma_find(rest@, sep@);
                    }
                    let part = slice_subrange(rest, 0, j);
                    assert(part@ =~= rest@.take(j as int));
                    text_of(part)
                },
            }
        },
    };
    Some(HttpText { status: status as u16, body })
}

/// The document that a service answered with: only an answer with status 200
/// whose body is JSON counts.
pub open spec fn document(reply: Option<HttpText>) -> Option<json::JsonView> {
    match reply {
        Some(r) => if r.status == 200 && json::parsed(r.body@) is Ok {
            Some(json::parsed(r.body@)->Ok_0)
        } else {
            None
        },
        None => None,
    }
}

/// The document that a service answered with.
pub fn document_of(reply: &Option<HttpText>) -> (r: Option<Json>)
    ensures
        match r {
            Some(doc) => document(*reply) == Some(doc@),
            None => document(*reply) is None,
        },
{
    match reply {
        Some(answer) => if answer.status == 200 {
            match parse_json(answer.body.as_str()) {
                Ok(doc) => Some(doc),
                Err(_) => None,
            }
        } else {
            None
        },
        None => None,
    }
}

/// The consistency point that the log's answer gives.
pub open spec fn tree_head_text(reply: Option<HttpText>) -> Seq<char> {
    match document(reply) {
        Some(doc) => "size "@ + json::prose(json::field(doc, "tree_size"@)) + " root "@
            + json::prose(json::field(doc, "root"@)),
        None => "unavailable"@,
    }
}

/// A value of a document as prose.
pub fn prose_of(doc: &Json, key: &str) -> (r: String)
    ensures
        r@ == json::prose(json::field(doc@, key@)),
{
    match doc.get(key) {
        Some(v) => plain(v),
        None => plain(&Json::Null),
    }
}

/// The consistency point: the log's signed tree head, best effort — a
/// deployment without the log running still backs up.
pub fn tree_head(reply: &Option<HttpText>) -> (r: String)
    ensures
        r@ == tree_head_text(*reply),
{
    match document_of(reply) {
        Some(doc) => cat4(
            "size ",
            prose_of(&doc, "tree_size").as_str(),
            " root ",
            prose_of(&doc, "root").as_str(),
        ),
        None => "unavailable".to_string(),
    }
}

} // verus!
