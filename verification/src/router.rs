//! Route dispatch: from method and path to a response.
//!
//! The route table is the union the service serves:
//! `GET /` (fixed root text), `GET /hello` (fixed hello text),
//! `GET /hello/{name}` (plain-text greeting) and `POST /hello/{name}`
//! (JSON greeting); anything else is a not-found response with an empty
//! body. The `{name}` capture is a single path segment: the bytes after
//! `/hello/`, which may be empty but may not contain another `/`.
//!
//! Paths and bodies are handled as UTF-8 bytes, so the dispatch covers any
//! name, ASCII or not. [`lemma_greet_text_route`] and
//! [`lemma_greet_json_route`] connect the byte-level dispatch back to the
//! character-level handler contracts for every name.

use vstd::prelude::*;
use vstd::string::StringSliceAdditionalSpecFns;
use vstd::utf8::*;
use crate::handlers::{greeting, handle_hello, hello_world_message, root, root_message};
use crate::json::{greet_json_bytes, greet_json_doc, lemma_greet_json_round_trip, parse_greet_json};

verus! {

/// An HTTP method the service distinguishes.
#[derive(Clone, Copy, PartialEq, Eq, Structural, Debug)]
pub enum Method {
    Get,
    Post,
}

/// The content type of a response body.
#[derive(Clone, Copy, PartialEq, Eq, Structural, Debug)]
pub enum ContentType {
    TextPlain,
    ApplicationJson,
}

/// A response: status code, content type, and body bytes.
pub struct Response {
    pub status: u16,
    pub content_type: ContentType,
    pub body: Vec<u8>,
}

/// The path of the root route.
pub open spec fn root_path() -> Seq<u8> {
    encode_utf8("/"@)
}

/// The path of the fixed hello route.
pub open spec fn hello_path() -> Seq<u8> {
    encode_utf8("/hello"@)
}

/// The bytes every greeting path starts with.
pub open spec fn greet_prefix() -> Seq<u8> {
    encode_utf8("/hello/"@)
}

/// True for paths the greeting routes capture: `/hello/` followed by a
/// single, possibly empty, segment with no further `/`.
pub open spec fn is_greet_path(p: Seq<u8>) -> bool {
    &&& p.len() >= greet_prefix().len()
    &&& p.subrange(0, greet_prefix().len() as int) == greet_prefix()
    &&& forall|i: int| greet_prefix().len() <= i < p.len() ==> p[i] != 0x2fu8
}

/// The captured name of a greeting path: everything after `/hello/`.
pub open spec fn greet_name(p: Seq<u8>) -> Seq<u8> {
    p.skip(greet_prefix().len() as int)
}

/// True when some route accepts the method and path.
pub open spec fn route_matched(m: Method, p: Seq<u8>) -> bool {
    ||| m == Method::Get && (p == root_path() || p == hello_path() || is_greet_path(p))
    ||| m == Method::Post && is_greet_path(p)
}

/// The status code served for a method and path.
pub open spec fn status_of(m: Method, p: Seq<u8>) -> u16 {
    if route_matched(m, p) {
        200
    } else {
        404
    }
}

/// The content type served for a method and path.
pub open spec fn content_type_of(m: Method, p: Seq<u8>) -> ContentType {
    if m == Method::Post && is_greet_path(p) {
        ContentType::ApplicationJson
    } else {
        ContentType::TextPlain
    }
}

/// The body served for a method and path. A miss has an empty body.
pub open spec fn body_of(m: Method, p: Seq<u8>) -> Seq<u8> {
    if m == Method::Get && p == root_path() {
        encode_utf8(root_message())
    } else if m == Method::Get && p == hello_path() {
        encode_utf8(hello_world_message())
    } else if m == Method::Get && is_greet_path(p) {
        encode_utf8("Hello "@) + greet_name(p)
    } else if m == Method::Post && is_greet_path(p) {
        greet_json_doc(encode_utf8("Hello "@) + greet_name(p))
    } else {
        seq![]
    }
}

/// Encoding distributes over concatenation.
proof fn lemma_encode_utf8_concat(a: Seq<char>, b: Seq<char>)
    ensures
        encode_utf8(a + b) == encode_utf8(a) + encode_utf8(b),
    decreases a.len(),
{
    if a.len() == 0 {
        assert(a + b =~= b);
        assert(encode_utf8(a) =~= Seq::<u8>::empty());
        assert(encode_utf8(a) + encode_utf8(b) =~= encode_utf8(b));
    } else {
        assert((a + b).drop_first() =~= a.drop_first() + b);
        lemma_encode_utf8_concat(a.drop_first(), b);
        assert((a + b)[0] == a[0]);
        assert(encode_scalar(a[0] as u32) + (encode_utf8(a.drop_first()) + encode_utf8(b)) =~= (
        encode_scalar(a[0] as u32) + encode_utf8(a.drop_first())) + encode_utf8(b));
    }
}

/// A character other than `/` never encodes to the byte of `/`: the single
/// byte of an ASCII character is its own code, and every byte of a
/// multi-byte character is 0x80 or above.
proof fn lemma_encode_scalar_no_slash(c: char)
    requires
        c != '/',
    ensures
        forall|j: int|
            0 <= j < encode_scalar(c as u32).len() ==> #[trigger] encode_scalar(c as u32)[j]
                != 0x2fu8,
{
    char_is_scalar(c);
    let v = c as u32;
    let s = encode_scalar(v);
    assert('/' as u32 == 0x2f);
    assert(v != 0x2f) by {
        if v == 0x2f {
            char_u32_cast(c, v);
            char_u32_cast('/', 0x2f);
        }
    }
    if has_width_1_encoding(v) {
        assert(s =~= seq![leading_byte_width_1(v)]);
        assert(leading_byte_width_1(v) == (v & 0x7F) as u8);
        assert((v & 0x7F) as u8 != 0x2fu8) by (bit_vector)
            requires
                v <= 0x7F && v != 0x2f,
        ;
    } else if has_width_2_encoding(v) {
        assert(s =~= seq![leading_byte_width_2(v), last_continuation_byte(v)]);
        assert(leading_byte_width_2(v) == 0xC0 | (((v >> 6) & 0x1F) as u8));
        assert(last_continuation_byte(v) == 0x80 | ((v & 0x3F) as u8));
        assert(0xC0 | (((v >> 6) & 0x1F) as u8) != 0x2fu8) by (bit_vector);
        assert(0x80 | ((v & 0x3F) as u8) != 0x2fu8) by (bit_vector);
    } else if has_width_3_encoding(v) {
        assert(s =~= seq![
            leading_byte_width_3(v),
            second_last_continuation_byte(v),
            last_continuation_byte(v),
        ]);
        assert(leading_byte_width_3(v) == 0xE0 | (((v >> 12) & 0x0F) as u8));
        assert(second_last_continuation_byte(v) == 0x80 | (((v >> 6) & 0x3F) as u8));
        assert(last_continuation_byte(v) == 0x80 | ((v & 0x3F) as u8));
        assert(0xE0 | (((v >> 12) & 0x0F) as u8) != 0x2fu8) by (bit_vector);
        assert(0x80 | (((v >> 6) & 0x3F) as u8) != 0x2fu8) by (bit_vector);
        assert(0x80 | ((v & 0x3F) as u8) != 0x2fu8) by (bit_vector);
    } else {
        assert(s =~= seq![
            leading_byte_width_4(v),
            third_last_continuation_byte(v),
            second_last_continuation_byte(v),
            last_continuation_byte(v),
        ]);
        assert(leading_byte_width_4(v) == 0xF0 | (((v >> 18) & 0x7) as u8));
        assert(third_last_continuation_byte(v) == 0x80 | (((v >> 12) & 0x3F) as u8));
        assert(second_last_continuation_byte(v) == 0x80 | (((v >> 6) & 0x3F) as u8));
        assert(last_continuation_byte(v) == 0x80 | ((v & 0x3F) as u8));
        assert(0xF0 | (((v >> 18) & 0x7) as u8) != 0x2fu8) by (bit_vector);
        assert(0x80 | (((v >> 12) & 0x3F) as u8) != 0x2fu8) by (bit_vector);
        assert(0x80 | (((v >> 6) & 0x3F) as u8) != 0x2fu8) by (bit_vector);
        assert(0x80 | ((v & 0x3F) as u8) != 0x2fu8) by (bit_vector);
    }
}

/// The encoding of a `/`-free character sequence contains no `/` byte.
proof fn lemma_encode_no_slash(name: Seq<char>)
    requires
        forall|i: int| 0 <= i < name.len() ==> name[i] != '/',
    ensures
        forall|j: int| 0 <= j < encode_utf8(name).len() ==> encode_utf8(name)[j] != 0x2fu8,
    decreases name.len(),
{
    if name.len() > 0 {
        lemma_encode_scalar_no_slash(name[0]);
        lemma_encode_no_slash(name.drop_first());
        let e = encode_utf8(name);
        let h = encode_scalar(name[0] as u32);
        let t = encode_utf8(name.drop_first());
        assert forall|j: int| 0 <= j < e.len() implies e[j] != 0x2fu8 by {
            if j < h.len() {
                assert(e[j] == h[j]);
            } else {
                assert(e[j] == t[j - h.len()]);
            }
        }
    }
}

/// The byte lengths of the three route literals.
proof fn lemma_route_literals()
    ensures
        root_path().len() == 1,
        hello_path().len() == 6,
        greet_prefix().len() == 7,
{
    reveal_strlit("/");
    reveal_strlit("/hello");
    reveal_strlit("/hello/");
    assert(is_ascii_chars("/"@));
    assert(is_ascii_chars("/hello"@));
    assert(is_ascii_chars("/hello/"@));
    is_ascii_chars_encode_utf8("/"@);
    is_ascii_chars_encode_utf8("/hello"@);
    is_ascii_chars_encode_utf8("/hello/"@);
}

/// A request is served with status 200 exactly when some route accepts its
/// method and path, and with the not-found status 404 exactly otherwise:
/// no third status exists.
pub proof fn lemma_not_found_exactly_on_miss(m: Method, p: Seq<u8>)
    ensures
        status_of(m, p) == 200 <==> route_matched(m, p),
        status_of(m, p) == 404 <==> !route_matched(m, p),
{
}

/// For every name without a `/` — any other characters, ASCII or not, and
/// the empty name included — `GET /hello/{name}` is matched and serves
/// exactly the text `"Hello {name}"` as UTF-8, with no transformation or
/// escaping.
pub proof fn lemma_greet_text_route(name: Seq<char>)
    requires
        forall|i: int| 0 <= i < name.len() ==> name[i] != '/',
    ensures
        ({
            let p = encode_utf8("/hello/"@ + name);
            &&& is_greet_path(p)
            &&& greet_name(p) == encode_utf8(name)
            &&& status_of(Method::Get, p) == 200
            &&& content_type_of(Method::Get, p) == ContentType::TextPlain
            &&& body_of(Method::Get, p) == encode_utf8(greeting(name))
        }),
{
    let p = encode_utf8("/hello/"@ + name);
    let nb = encode_utf8(name);
    lemma_encode_utf8_concat("/hello/"@, name);
    lemma_route_literals();
    assert(p.subrange(0, greet_prefix().len() as int) =~= greet_prefix());
    lemma_encode_no_slash(name);
    assert forall|i: int| greet_prefix().len() <= i < p.len() implies p[i] != 0x2fu8 by {
        assert(p[i] == nb[i - greet_prefix().len()]);
    }
    assert(is_greet_path(p));
    assert(greet_name(p) =~= nb);
    lemma_encode_utf8_concat("Hello "@, name);
    assert(encode_utf8("Hello "@) + nb =~= encode_utf8(greeting(name)));
}

/// For every name without a `/`, `POST /hello/{name}` is matched and serves
/// a body that is exactly a JSON object with the single member `message`
/// whose value is exactly `"Hello {name}"`.
pub proof fn lemma_greet_json_route(name: Seq<char>)
    requires
        forall|i: int| 0 <= i < name.len() ==> name[i] != '/',
    ensures
        ({
            let p = encode_utf8("/hello/"@ + name);
            &&& is_greet_path(p)
            &&& status_of(Method::Post, p) == 200
            &&& content_type_of(Method::Post, p) == ContentType::ApplicationJson
            &&& body_of(Method::Post, p) == greet_json_doc(encode_utf8(greeting(name)))
            &&& parse_greet_json(body_of(Method::Post, p)) == Some(encode_utf8(greeting(name)))
        }),
{
    lemma_greet_text_route(name);
    let p = encode_utf8("/hello/"@ + name);
    lemma_encode_utf8_concat("Hello "@, name);
    assert(encode_utf8("Hello "@) + greet_name(p) =~= encode_utf8(greeting(name)));
    lemma_greet_json_round_trip(encode_utf8(greeting(name)));
}

/// True when the two byte strings are equal.
fn bytes_eq(a: &[u8], b: &[u8]) -> (r: bool)
    ensures
        r == (a@ == b@),
{
    if a.len() != b.len() {
        proof {
            assert(a@ != b@);
        }
        return false;
    }
    let mut i: usize = 0;
    while i < a.len()
        invariant
            i <= a@.len(),
            a@.len() == b@.len(),
            forall|j: int| 0 <= j < i ==> a@[j] == b@[j],
        decreases a@.len() - i,
    {
        if a[i] != b[i] {
            return false;
        }
        i = i + 1;
    }
    proof {
        assert(a@ =~= b@);
    }
    true
}

/// True when `a` starts with `p`.
fn has_prefix(a: &[u8], p: &[u8]) -> (r: bool)
    ensures
        r == (a@.len() >= p@.len() && a@.subrange(0, p@.len() as int) == p@),
{
    if a.len() < p.len() {
        return false;
    }
    let mut i: usize = 0;
    while i < p.len()
        invariant
            i <= p@.len(),
            p@.len() <= a@.len(),
            forall|j: int| 0 <= j < i ==> a@[j] == p@[j],
        decreases p@.len() - i,
    {
        if a[i] != p[i] {
            proof {
                assert(a@.subrange(0, p@.len() as int)[i as int] != p@[i as int]);
            }
            return false;
        }
        i = i + 1;
    }
    proof {
        assert(a@.subrange(0, p@.len() as int) =~= p@);
    }
    true
}

/// True when no byte from `from` on is `/`.
fn no_slash_from(a: &[u8], from: usize) -> (r: bool)
    requires
        from <= a@.len(),
    ensures
        r == (forall|i: int| from <= i < a@.len() ==> a@[i] != 0x2fu8),
{
    let mut i: usize = from;
    while i < a.len()
        invariant
            from <= i <= a@.len(),
            forall|j: int| from <= j < i ==> a@[j] != 0x2fu8,
        decreases a@.len() - i,
    {
        if a[i] == 0x2f {
            return false;
        }
        i = i + 1;
    }
    true
}

/// Copies the bytes of `a` from `from` on.
fn tail_from(a: &[u8], from: usize) -> (v: Vec<u8>)
    requires
        from <= a@.len(),
    ensures
        v@ == a@.skip(from as int),
{
    let mut v: Vec<u8> = Vec::new();
    let mut i: usize = from;
    while i < a.len()
        invariant
            from <= i <= a@.len(),
            v@ == a@.subrange(from as int, i as int),
        decreases a@.len() - i,
    {
        v.push(a[i]);
        proof {
            assert(v@ =~= a@.subrange(from as int, i + 1));
        }
        i = i + 1;
    }
    proof {
        assert(a@.subrange(from as int, a@.len() as int) =~= a@.skip(from as int));
    }
    v
}

/// Dispatches a request: matches the method and path against the route
/// table and returns the matched handler's response, or a not-found
/// response with an empty body when no route accepts the request.
pub fn dispatch(method: Method, path: &str) -> (r: Response)
    ensures
        r.status == status_of(method, path.spec_bytes()),
        r.content_type == content_type_of(method, path.spec_bytes()),
        r.body@ == body_of(method, path.spec_bytes()),
{
    let b: &[u8] = path.as_bytes();
    let prefix: &[u8] = "/hello/".as_bytes();
    let is_greet = has_prefix(b, prefix) && no_slash_from(b, prefix.len());
    if matches!(method, Method::Get) && bytes_eq(b, "/".as_bytes()) {
        let mut body: Vec<u8> = Vec::new();
        body.extend_from_slice(root().as_bytes());
        Response { status: 200, content_type: ContentType::TextPlain, body }
    } else if matches!(method, Method::Get) && bytes_eq(b, "/hello".as_bytes()) {
        let mut body: Vec<u8> = Vec::new();
        body.extend_from_slice(handle_hello().as_bytes());
        Response { status: 200, content_type: ContentType::TextPlain, body }
    } else if matches!(method, Method::Get) && is_greet {
        let mut body: Vec<u8> = Vec::new();
        body.extend_from_slice("Hello ".as_bytes());
        let mut name = tail_from(b, prefix.len());
        body.append(&mut name);
        proof {
            assert(body@ =~= encode_utf8("Hello "@) + greet_name(path.spec_bytes()));
        }
        Response { status: 200, content_type: ContentType::TextPlain, body }
    } else if matches!(method, Method::Post) && is_greet {
        let mut message: Vec<u8> = Vec::new();
        message.extend_from_slice("Hello ".as_bytes());
        let mut name = tail_from(b, prefix.len());
        message.append(&mut name);
        proof {
            assert(message@ =~= encode_utf8("Hello "@) + greet_name(path.spec_bytes()));
        }
        let body = greet_json_bytes(message.as_slice());
        Response { status: 200, content_type: ContentType::ApplicationJson, body }
    } else {
        Response { status: 404, content_type: ContentType::TextPlain, body: Vec::new() }
    }
}

} // verus!
