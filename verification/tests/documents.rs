//! JSON documents and checksums.

use unidpp_ops::digest::{hex_of, sha256_hex};
use unidpp_ops::http::{
    document_of, get, post, prose_of, request, response, tree_head, HttpText,
};
use unidpp_ops::json::{
    compact, count_of_path, number_json, parse_json, parse_or_null, plain, pretty, text_json,
    text_of_path, Fields, Json,
};

#[test]
fn checksums_are_those_of_sha256() {
    assert_eq!(
        sha256_hex(b""),
        "e3b0c44298fc1c149afbf4c8996fb92427ae41e4649b934ca495991b7852b855"
    );
    assert_eq!(
        sha256_hex(b"abc"),
        "ba7816bf8f01cfea414140de5dae2223b00361a396177a9cb410ff61f20015ad"
    );
    assert_eq!(hex_of(&[0x00, 0xff, 0x1a]), "00ff1a");
}

#[test]
fn a_document_is_read_and_written() {
    let doc = parse_json(r#" {"b": [1, -2, 1.5, "x\n"], "a": {"k": null, "t": true}} "#).unwrap();
    assert_eq!(compact(&doc), r#"{"a":{"k":null,"t":true},"b":[1,-2,1.5,"x\n"]}"#);
    assert_eq!(
        pretty(&doc),
        "{\n  \"a\": {\n    \"k\": null,\n    \"t\": true\n  },\n  \"b\": [\n    1,\n    -2,\n    1.5,\n    \"x\\n\"\n  ]\n}"
    );
    assert_eq!(pretty(&Fields::new().done()), "{}");
}

#[test]
fn a_key_stands_once_with_its_last_value() {
    let doc = parse_json(r#"{"a":1,"b":2,"a":3}"#).unwrap();
    assert_eq!(compact(&doc), r#"{"a":3,"b":2}"#);
    let mut fields = Fields::new();
    fields.put("z", text_json("1"));
    fields.put("a", number_json(2));
    fields.put("z", text_json("3"));
    assert_eq!(fields.count(), 2);
    assert_eq!(compact(&fields.done()), r#"{"a":2,"z":"3"}"#);
}

#[test]
fn what_is_no_json_is_refused() {
    for text in ["", "{", "[1,]", "{'a':1}", "nul", "1 2", "\u{feff}{}"] {
        let error = parse_json(text).err().unwrap();
        assert_eq!(
            error,
            serde_json::from_str::<serde_json::Value>(text).unwrap_err().to_string()
        );
        assert!(parse_or_null(text).is_null());
    }
}

#[test]
fn values_are_told_apart() {
    let doc = parse_json(r#"{"n":18446744073709551615,"i":-1,"f":2.0,"s":"t","l":[0],"o":{}}"#)
        .unwrap();
    assert_eq!(doc.get("n").unwrap().as_u64(), Some(u64::MAX));
    assert_eq!(doc.get("i").unwrap().as_u64(), None);
    assert_eq!(doc.get("f").unwrap().as_u64(), None);
    assert_eq!(doc.get("s").unwrap().as_u64(), None);
    assert_eq!(doc.get("s").unwrap().as_text(), Some(&"t".to_string()));
    assert_eq!(doc.get("l").unwrap().as_array().map(|a| a.len()), Some(1));
    assert_eq!(doc.get("o").unwrap().keys(), Some(Vec::new()));
    assert!(doc.get("x").is_none());
    assert!(doc.get("s").unwrap().get("x").is_none());
    assert_eq!(
        doc.keys().unwrap(),
        vec!["f", "i", "l", "n", "o", "s"]
            .into_iter()
            .map(str::to_string)
            .collect::<Vec<String>>()
    );
}

#[test]
fn documents_are_compared_like_values() {
    let texts = [
        "null", "true", "0", "-0", "0.0", "-0.0", "1", "1.0", "1e0", "10e-1", "\"1\"", "[1]",
        "[1,1]", "[1.0]", "{}", r#"{"a":1}"#, r#"{"a":1.0}"#, r#"{"b":1,"a":2}"#,
        r#"{"a":2,"b":1}"#, "18446744073709551616", "1e400e", "0.1", "1e-1",
    ];
    for a in texts {
        for b in texts {
            let (Ok(x), Ok(y)) = (parse_json(a), parse_json(b)) else {
                continue;
            };
            let v: serde_json::Value = serde_json::from_str(a).unwrap();
            let w: serde_json::Value = serde_json::from_str(b).unwrap();
            assert_eq!(x.same(&y), v == w, "{} {}", a, b);
        }
    }
}

#[test]
fn a_copy_is_the_same() {
    let doc = parse_json(r#"{"b":[1,2.5,{"c":null}],"a":"x"}"#).unwrap();
    let copy = doc.copy();
    assert!(copy.same(&doc));
    assert_eq!(compact(&copy), compact(&doc));
}

#[test]
fn paths_lead_into_documents() {
    let doc = parse_json(r#"{"a":[{"b":"x"},{"b":7}],"n":null,"t":"s"}"#).unwrap();
    assert_eq!(text_of_path(&doc, &["a", "0", "b"]), "x");
    assert_eq!(text_of_path(&doc, &["a", "1", "b"]), "7");
    assert_eq!(text_of_path(&doc, &["a", "2", "b"]), "?");
    assert_eq!(text_of_path(&doc, &["a", "x"]), "?");
    assert_eq!(text_of_path(&doc, &["a", "+1", "b"]), "7");
    assert_eq!(text_of_path(&doc, &["n"]), "?");
    assert_eq!(text_of_path(&doc, &["t", "u"]), "?");
    assert_eq!(text_of_path(&doc, &["a", "0"]), r#"{"b":"x"}"#);
    assert_eq!(text_of_path(&doc, &[]), compact(&doc));
    assert_eq!(count_of_path(&doc, &["a"]), 2);
    assert_eq!(count_of_path(&doc, &["t"]), 0);
    assert_eq!(count_of_path(&doc, &["x"]), 0);
}

#[test]
fn values_are_prose() {
    assert_eq!(plain(&text_json("x y")), "x y");
    assert_eq!(plain(&Json::Null), "None");
    assert_eq!(plain(&number_json(12)), "12");
    assert_eq!(plain(&Json::Bool(true)), "true");
}

#[test]
fn an_entry_is_added() {
    let doc = parse_json(r#"{"a":1}"#).unwrap().with("b", Json::Null);
    assert_eq!(compact(&doc), r#"{"a":1,"b":null}"#);
    assert_eq!(compact(&Json::Null.with("k", number_json(0))), r#"{"k":0}"#);
}

#[test]
fn written_documents_read_back() {
    let mut fields = Fields::new();
    fields.put("quote\"", text_json("\u{1}\\\u{10ffff}"));
    fields.put("n", number_json(u64::MAX));
    let mut list = Vec::new();
    list.push(Json::Bool(false));
    list.push(Json::Null);
    fields.put("l", Json::Array(list));
    let doc = fields.done();
    assert!(parse_json(&pretty(&doc)).unwrap().same(&doc));
    assert!(parse_json(&compact(&doc)).unwrap().same(&doc));
}

#[test]
fn requests_are_written() {
    assert_eq!(
        get(8390, "/units"),
        "GET /units HTTP/1.1\r\nHost: 127.0.0.1:8390\r\nConnection: close\r\ncontent-type: application/json\r\ncontent-length: 0\r\n\r\n"
    );
    assert_eq!(
        post(1, "/x", "é"),
        "POST /x HTTP/1.1\r\nHost: 127.0.0.1:1\r\nConnection: close\r\ncontent-type: application/json\r\ncontent-length: 2\r\n\r\né"
    );
    assert_eq!(request("GET", 2, "/", None), get(2, "/"));
}

#[test]
fn responses_are_read() {
    let reply = response(b"HTTP/1.1 201 Created\r\na: b\r\n\r\nbody").unwrap();
    assert_eq!((reply.status, reply.body.as_str()), (201, "body"));
    let cut = response(b"HTTP/1.1 200 OK\r\n\r\none\r\n\r\ntwo").unwrap();
    assert_eq!(cut.body, "one");
    let bare = response(b"HTTP/1.1 404").unwrap();
    assert_eq!((bare.status, bare.body.as_str()), (404, ""));
    let odd = response(b"HTTP/1.1 200 OK\r\n\r\n\xffx").unwrap();
    assert_eq!(odd.body, "\u{fffd}x");
    assert!(response(b"").is_none());
    assert!(response(b"HTTP/1.1").is_none());
    assert!(response(b"HTTP/1.1 OK").is_none());
    assert!(response(b"HTTP/1.1 70000 x").is_none());
}

fn reply(status: u16, body: &str) -> Option<HttpText> {
    Some(HttpText { status, body: body.to_string() })
}

#[test]
fn only_a_good_answer_holds_a_document() {
    assert!(document_of(&None).is_none());
    assert!(document_of(&reply(500, "{}")).is_none());
    assert!(document_of(&reply(200, "x")).is_none());
    assert!(document_of(&reply(200, "{}")).is_some());
    assert_eq!(prose_of(&parse_or_null("{}"), "k"), "None");
}

#[test]
fn the_tree_head_is_best_effort() {
    assert_eq!(
        tree_head(&reply(200, r#"{"tree_size":42,"root":"ab"}"#)),
        "size 42 root ab"
    );
    assert_eq!(tree_head(&reply(200, "{}")), "size None root None");
    assert_eq!(tree_head(&reply(200, "x")), "unavailable");
    assert_eq!(tree_head(&reply(503, "{}")), "unavailable");
    assert_eq!(tree_head(&None), "unavailable");
}
