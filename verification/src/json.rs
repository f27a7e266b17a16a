//! JSON framing of the greeting payload.
//!
//! A [`crate::handlers::GreetResponse`] is serialized as the UTF-8 bytes of
//! `{"message":"..."}`, with the message's bytes escaped as JSON requires:
//! `"` and `\` get a backslash, the control bytes below 0x20 become `\b`,
//! `\t`, `\n`, `\f`, `\r` or `\u00XX` with lowercase hex digits. Escaping is
//! defined byte by byte, which agrees with the character-level rule because
//! every byte that needs an escape is ASCII and every byte of a multi-byte
//! UTF-8 character is 0x80 or above and passes through unchanged.
//!
//! [`unescape_bytes`] is the inverse reading: [`lemma_unescape_escape`]
//! proves that unescaping an escaped string gives the original back, and
//! [`lemma_greet_json_round_trip`] that a serialized payload parses as a
//! JSON object with exactly one member, `message`, holding the original
//! message.

use vstd::prelude::*;
use vstd::utf8::encode_utf8;
use crate::handlers::GreetResponse;

verus! {

/// The lowercase ASCII hex digit for a value below 16.
pub open spec fn hex_digit(n: u8) -> u8 {
    if n < 10 {
        (0x30 + n) as u8
    } else {
        (0x57 + n) as u8
    }
}

/// The value of a lowercase ASCII hex digit, if it is one.
pub open spec fn hex_val(b: u8) -> Option<u8> {
    if 0x30 <= b <= 0x39 {
        Some((b - 0x30) as u8)
    } else if 0x61 <= b <= 0x66 {
        Some((b - 0x57) as u8)
    } else {
        None
    }
}

/// The JSON escape of one byte of a UTF-8 string.
pub open spec fn escape_byte(b: u8) -> Seq<u8> {
    if b == 0x22 {  // '"'
        seq![0x5cu8, 0x22u8]
    } else if b == 0x5c {  // '\'
        seq![0x5cu8, 0x5cu8]
    } else if b == 0x08 {
        seq![0x5cu8, 0x62u8]  // \b
    } else if b == 0x09 {
        seq![0x5cu8, 0x74u8]  // \t
    } else if b == 0x0a {
        seq![0x5cu8, 0x6eu8]  // \n
    } else if b == 0x0c {
        seq![0x5cu8, 0x66u8]  // \f
    } else if b == 0x0d {
        seq![0x5cu8, 0x72u8]  // \r
    } else if b < 0x20 {
        seq![0x5cu8, 0x75u8, 0x30u8, 0x30u8, hex_digit(b / 16), hex_digit(b % 16)]  // \u00XX
    } else {
        seq![b]
    }
}

/// The JSON escape of a whole byte string.
pub open spec fn escape_bytes(s: Seq<u8>) -> Seq<u8>
    decreases s.len(),
{
    if s.len() == 0 {
        seq![]
    } else {
        escape_byte(s[0]) + escape_bytes(s.drop_first())
    }
}

/// Reads an escaped JSON string body back into its bytes: `None` when the
/// bytes are not exactly the escaped form of some string (a lone backslash,
/// an unknown escape, or a raw quote or control byte).
pub open spec fn unescape_bytes(s: Seq<u8>) -> Option<Seq<u8>>
    decreases s.len(),
{
    if s.len() == 0 {
        Some(seq![])
    } else if s[0] == 0x5c {
        if s.len() < 2 {
            None
        } else if s[1] == 0x75 {
            if s.len() >= 6 && s[2] == 0x30 && s[3] == 0x30 && hex_val(s[4]) is Some && hex_val(
                s[5],
            ) is Some {
                match unescape_bytes(s.skip(6)) {
                    Some(rest) => Some(seq![(hex_val(s[4])->0 * 16 + hex_val(s[5])->0) as u8] + rest),
                    None => None,
                }
            } else {
                None
            }
        } else {
            let c: Option<u8> = if s[1] == 0x22 {
                Some(0x22u8)
            } else if s[1] == 0x5c {
                Some(0x5cu8)
            } else if s[1] == 0x62 {
                Some(0x08u8)
            } else if s[1] == 0x74 {
                Some(0x09u8)
            } else if s[1] == 0x6e {
                Some(0x0au8)
            } else if s[1] == 0x66 {
                Some(0x0cu8)
            } else if s[1] == 0x72 {
                Some(0x0du8)
            } else {
                None
            };
            match c {
                Some(u) => match unescape_bytes(s.skip(2)) {
                    Some(rest) => Some(seq![u] + rest),
                    None => None,
                },
                None => None,
            }
        }
    } else if s[0] == 0x22 || s[0] < 0x20 {
        None
    } else {
        match unescape_bytes(s.skip(1)) {
            Some(rest) => Some(seq![s[0]] + rest),
            None => None,
        }
    }
}

/// Escaping distributes over concatenation.
proof fn lemma_escape_bytes_concat(a: Seq<u8>, b: Seq<u8>)
    ensures
        escape_bytes(a + b) == escape_bytes(a) + escape_bytes(b),
    decreases a.len(),
{
    if a.len() == 0 {
        assert(a + b =~= b);
        assert(escape_bytes(a) + escape_bytes(b) =~= escape_bytes(b));
    } else {
        assert((a + b).drop_first() =~= a.drop_first() + b);
        lemma_escape_bytes_concat(a.drop_first(), b);
        assert(escape_byte(a[0]) + (escape_bytes(a.drop_first()) + escape_bytes(b)) =~= (
        escape_byte(a[0]) + escape_bytes(a.drop_first())) + escape_bytes(b));
        assert((a + b)[0] == a[0]);
    }
}

/// Appending one byte to the input appends its escape to the output.
proof fn lemma_escape_bytes_snoc(s: Seq<u8>, i: int)
    requires
        0 <= i < s.len(),
    ensures
        escape_bytes(s.subrange(0, i + 1)) == escape_bytes(s.subrange(0, i)) + escape_byte(s[i]),
{
    assert(s.subrange(0, i + 1) =~= s.subrange(0, i) + seq![s[i]]);
    lemma_escape_bytes_concat(s.subrange(0, i), seq![s[i]]);
    let single = seq![s[i]];
    assert(single.drop_first() =~= Seq::<u8>::empty());
    assert(escape_bytes(single.drop_first()) == Seq::<u8>::empty());
    assert(escape_bytes(single) == escape_byte(s[i]) + escape_bytes(single.drop_first()));
    assert(escape_byte(s[i]) + Seq::<u8>::empty() =~= escape_byte(s[i]));
}

/// The escaped form of one byte followed by a well-formed tail unescapes to
/// the byte followed by the tail's reading: each escape is self-delimiting.
proof fn lemma_unescape_escape_byte(b: u8, t: Seq<u8>)
    requires
        unescape_bytes(t) is Some,
    ensures
        unescape_bytes(escape_byte(b) + t) == Some(seq![b] + unescape_bytes(t)->0),
{
    let s = escape_byte(b) + t;
    if b == 0x22 || b == 0x5c || b == 0x08 || b == 0x09 || b == 0x0a || b == 0x0c || b == 0x0d {
        assert(s.skip(2) =~= t);
    } else if b < 0x20 {
        assert(s.skip(6) =~= t);
        assert(hex_val(hex_digit(b / 16)) == Some(b / 16));
        assert(hex_val(hex_digit(b % 16)) == Some(b % 16));
        assert((b / 16) * 16 + b % 16 == b) by (nonlinear_arith);
    } else {
        assert(s.skip(1) =~= t);
    }
}

/// Unescaping inverts escaping: no information about the message is lost.
pub proof fn lemma_unescape_escape(s: Seq<u8>)
    ensures
        unescape_bytes(escape_bytes(s)) == Some(s),
    decreases s.len(),
{
    if s.len() == 0 {
        assert(escape_bytes(s) =~= Seq::<u8>::empty());
    } else {
        lemma_unescape_escape(s.drop_first());
        lemma_unescape_escape_byte(s[0], escape_bytes(s.drop_first()));
        assert(seq![s[0]] + s.drop_first() =~= s);
    }
}

/// The bytes before the escaped message in a serialized greeting payload.
pub open spec fn json_prefix() -> Seq<u8> {
    encode_utf8("{\"message\":\""@)
}

/// The bytes after the escaped message in a serialized greeting payload.
pub open spec fn json_suffix() -> Seq<u8> {
    encode_utf8("\"}"@)
}

/// The serialized greeting payload whose message has the given UTF-8 bytes.
pub open spec fn greet_json_doc(message: Seq<u8>) -> Seq<u8> {
    json_prefix() + escape_bytes(message) + json_suffix()
}

/// Reads a serialized greeting payload: the message bytes of a document that
/// is exactly a JSON object with the single member `message`, `None` for
/// anything else.
pub open spec fn parse_greet_json(doc: Seq<u8>) -> Option<Seq<u8>> {
    if doc.len() >= json_prefix().len() + json_suffix().len() && doc.subrange(
        0,
        json_prefix().len() as int,
    ) == json_prefix() && doc.subrange(doc.len() - json_suffix().len(), doc.len() as int)
        == json_suffix() {
        unescape_bytes(
            doc.subrange(json_prefix().len() as int, doc.len() - json_suffix().len()),
        )
    } else {
        None
    }
}

/// A serialized greeting payload parses as a JSON object with exactly one
/// member, `message`, whose value is the original message.
pub proof fn lemma_greet_json_round_trip(message: Seq<u8>)
    ensures
        parse_greet_json(greet_json_doc(message)) == Some(message),
{
    let doc = greet_json_doc(message);
    let p = json_prefix().len() as int;
    let q = json_suffix().len() as int;
    assert(doc.subrange(0, p) =~= json_prefix());
    assert(doc.subrange(doc.len() - q, doc.len() as int) =~= json_suffix());
    assert(doc.subrange(p, doc.len() - q) =~= escape_bytes(message));
    lemma_unescape_escape(message);
}

/// The lowercase ASCII hex digit for a value below 16.
fn hex_digit_of(n: u8) -> (r: u8)
    requires
        n < 16,
    ensures
        r == hex_digit(n),
{
    if n < 10 {
        0x30 + n
    } else {
        0x57 + n
    }
}

/// JSON-escapes the bytes of a UTF-8 string.
pub fn escape_json_bytes(s: &[u8]) -> (out: Vec<u8>)
    ensures
        out@ == escape_bytes(s@),
{
    let mut out: Vec<u8> = Vec::new();
    let mut i: usize = 0;
    while i < s.len()
        invariant
            i <= s@.len(),
            out@ == escape_bytes(s@.subrange(0, i as int)),
        decreases s@.len() - i,
    {
        let b = s[i];
        if b == 0x22 {
            out.push(0x5c);
            out.push(0x22);
        } else if b == 0x5c {
            out.push(0x5c);
            out.push(0x5c);
        } else if b == 0x08 {
            out.push(0x5c);
            out.push(0x62);
        } else if b == 0x09 {
            out.push(0x5c);
            out.push(0x74);
        } else if b == 0x0a {
            out.push(0x5c);
            out.push(0x6e);
        } else if b == 0x0c {
            out.push(0x5c);
            out.push(0x66);
        } else if b == 0x0d {
            out.push(0x5c);
            out.push(0x72);
        } else if b < 0x20 {
            out.push(0x5c);
            out.push(0x75);
            out.push(0x30);
            out.push(0x30);
            out.push(hex_digit_of(b / 16));
            out.push(hex_digit_of(b % 16));
        } else {
            out.push(b);
        }
        proof {
            lemma_escape_bytes_snoc(s@, i as int);
            assert(out@ =~= escape_bytes(s@.subrange(0, i + 1)));
        }
        i = i + 1;
    }
    proof {
        assert(s@.subrange(0, s@.len() as int) =~= s@);
    }
    out
}

/// Serializes a greeting message given as UTF-8 bytes.
pub fn greet_json_bytes(message: &[u8]) -> (out: Vec<u8>)
    ensures
        out@ == greet_json_doc(message@),
{
    let mut out: Vec<u8> = Vec::new();
    out.extend_from_slice("{\"message\":\"".as_bytes());
    let mut escaped = escape_json_bytes(message);
    out.append(&mut escaped);
    out.extend_from_slice("\"}".as_bytes());
    proof {
        assert(out@ =~= greet_json_doc(message@));
    }
    out
}

/// Serializes a greeting payload as a JSON object with the single member
/// `message`.
pub fn greet_response_json(r: &GreetResponse) -> (out: Vec<u8>)
    ensures
        out@ == greet_json_doc(encode_utf8(r.message@)),
{
    greet_json_bytes(r.message.as_str().as_bytes())
}

} // verus!
