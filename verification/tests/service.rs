//! End-to-end checks of the handlers, the JSON framing and the dispatch.

use hello_service::handlers::{greet_user, greet_user_json, handle_hello, root, GreetResponse};
use hello_service::json::{escape_json_bytes, greet_json_bytes, greet_response_json};
use hello_service::router::{dispatch, ContentType, Method};

#[test]
fn get_root_returns_name() {
    let r = dispatch(Method::Get, "/");
    assert_eq!(r.status, 200);
    assert_eq!(r.content_type, ContentType::TextPlain);
    assert_eq!(r.body, b"My name is Rajan Yadav".to_vec());
}

#[test]
fn get_hello_returns_hello_world() {
    let r = dispatch(Method::Get, "/hello");
    assert_eq!(r.status, 200);
    assert_eq!(r.content_type, ContentType::TextPlain);
    assert_eq!(r.body, b"Hello World".to_vec());
}

#[test]
fn get_hello_alice_returns_text() {
    let r = dispatch(Method::Get, "/hello/Alice");
    assert_eq!(r.status, 200);
    assert_eq!(r.content_type, ContentType::TextPlain);
    assert_eq!(r.body, b"Hello Alice".to_vec());
}

#[test]
fn post_hello_bob_returns_json() {
    let r = dispatch(Method::Post, "/hello/Bob");
    assert_eq!(r.status, 200);
    assert_eq!(r.content_type, ContentType::ApplicationJson);
    assert_eq!(r.body, b"{\"message\":\"Hello Bob\"}".to_vec());
}

#[test]
fn get_nonexistent_is_not_found() {
    let r = dispatch(Method::Get, "/nonexistent");
    assert_eq!(r.status, 404);
    assert!(r.body.is_empty());
}

#[test]
fn wrong_method_is_not_found() {
    assert_eq!(dispatch(Method::Post, "/").status, 404);
    assert_eq!(dispatch(Method::Post, "/hello").status, 404);
}

#[test]
fn deeper_path_is_not_found() {
    assert_eq!(dispatch(Method::Get, "/hello/a/b").status, 404);
    assert_eq!(dispatch(Method::Post, "/hello/a/").status, 404);
}

#[test]
fn empty_name_greets_with_trailing_space() {
    let r = dispatch(Method::Get, "/hello/");
    assert_eq!(r.status, 200);
    assert_eq!(r.body, b"Hello ".to_vec());
    assert_eq!(greet_user(""), "Hello ");
}

#[test]
fn name_with_special_characters_is_untransformed() {
    assert_eq!(greet_user("a-b_c.d~!*'()"), "Hello a-b_c.d~!*'()");
    assert_eq!(greet_user("say \"hi\" \\now\n"), "Hello say \"hi\" \\now\n");
    let r = dispatch(Method::Get, "/hello/<script>");
    assert_eq!(r.body, b"Hello <script>".to_vec());
}

#[test]
fn unicode_name_is_untransformed() {
    assert_eq!(greet_user("José"), "Hello José");
    let r = dispatch(Method::Get, "/hello/José");
    assert_eq!(r.status, 200);
    assert_eq!(r.body, "Hello José".as_bytes().to_vec());
}

#[test]
fn handlers_return_fixed_texts() {
    assert_eq!(root(), "My name is Rajan Yadav");
    assert_eq!(handle_hello(), "Hello World");
    assert_eq!(greet_user_json("Bob").message, "Hello Bob");
}

#[test]
fn escape_handles_quotes_backslashes_and_controls() {
    let out = escape_json_bytes(b"a\"b\\c\nd\x01e");
    assert_eq!(out, b"a\\\"b\\\\c\\nd\\u0001e".to_vec());
    assert_eq!(escape_json_bytes(b""), Vec::<u8>::new());
    assert_eq!(escape_json_bytes(b"plain"), b"plain".to_vec());
    assert_eq!(escape_json_bytes(b"\x08\x09\x0a\x0c\x0d"), b"\\b\\t\\n\\f\\r".to_vec());
    assert_eq!(escape_json_bytes(b"\x1f"), b"\\u001f".to_vec());
}

#[test]
fn greet_json_bytes_frames_the_message() {
    let out = greet_json_bytes(b"Hello Bob");
    assert_eq!(out, b"{\"message\":\"Hello Bob\"}".to_vec());
    let out = greet_json_bytes(b"He said \"hi\"");
    assert_eq!(out, b"{\"message\":\"He said \\\"hi\\\"\"}".to_vec());
}

#[test]
fn serialized_payload_matches_serde_json() {
    let messages = [
        "Hello Bob",
        "Hello say \"hi\"",
        "Hello back\\slash",
        "Hello tab\tand newline\n",
        "Hello control\u{1}char\u{1f}",
        "Hello José",
        "Hello ",
    ];
    for m in messages {
        let ours = greet_response_json(&GreetResponse { message: m.to_string() });
        let mut map = serde_json::Map::new();
        map.insert("message".to_string(), serde_json::Value::String(m.to_string()));
        let theirs = serde_json::to_vec(&serde_json::Value::Object(map)).unwrap();
        assert_eq!(ours, theirs, "encoding differs for {:?}", m);
    }
}

#[test]
fn post_body_parses_as_single_member_object() {
    let r = dispatch(Method::Post, "/hello/Bob");
    let v: serde_json::Value = serde_json::from_slice(&r.body).unwrap();
    let obj = v.as_object().unwrap();
    assert_eq!(obj.len(), 1);
    assert_eq!(obj.get("message").unwrap(), "Hello Bob");
}

#[test]
fn post_body_with_awkward_name_parses_back() {
    let r = dispatch(Method::Post, "/hello/a\"b\\c");
    assert_eq!(r.status, 200);
    let v: serde_json::Value = serde_json::from_slice(&r.body).unwrap();
    assert_eq!(v.as_object().unwrap().get("message").unwrap(), "Hello a\"b\\c");
}
