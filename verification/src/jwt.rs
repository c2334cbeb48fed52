//! The e-mail address in an OpenID `id_token`: the `email` claim of its
//! payload, which is URL-safe Base64 of a JSON object.
use vstd::prelude::*;
use crate::accounts_state::{normalize_email, normalize_email_spec};
use crate::models::AppError;
use crate::order::{lemma_views_index, views};
use crate::ssh::opt_chars;
use crate::text::{
    chars_of, concat, owned, split_at_char, split_on, starts_with, string_of, trim, trim_chars,
};

verus! {

/// What `base64::engine::general_purpose::URL_SAFE.decode` makes of `input`:
/// the decoded bytes, or `None` when it reports an error.
pub uninterp spec fn base64_url_safe_decode(input: Seq<u8>) -> Option<Seq<u8>>;

/// Decodes URL-safe Base64 (with padding) through the `base64` crate's
/// `URL_SAFE` engine. Stated: the outcome is `base64_url_safe_decode` of the
/// input; the error carries the crate's description of the fault, whose
/// text is not stated.
#[verifier::external_body]
fn decode_base64_url_safe(input: &[u8]) -> (r: Result<Vec<u8>, String>)
    ensures
        match r {
            Ok(v) => base64_url_safe_decode(input@) == Some(v@),
            Err(_) => base64_url_safe_decode(input@) is None,
        },
{
    match base64::Engine::decode(&base64::engine::general_purpose::URL_SAFE, input) {
        Ok(v) => Ok(v),
        Err(e) => Err(e.to_string()),
    }
}

/// What `serde_json::from_slice::<serde_json::Value>` followed by
/// `.get(key).and_then(Value::as_str)` makes of `json`: `None` when the
/// bytes are no JSON document, else the member `key` when the document is an
/// object that has it as a string. One name covers the parse and the two
/// reads after it: the `serde_json::Value` between them is opaque to these
/// contracts, so no name can be stated over it, while the whole is a
/// function of the bytes and the key alone.
pub uninterp spec fn json_string_member(json: Seq<u8>, key: Seq<char>) -> Option<Option<Seq<char>>>;

/// Parses `json` with `serde_json` and reads the string member `key`.
/// Stated: the outcome is `json_string_member` of the arguments; the error
/// carries `serde_json`'s description, whose text is not stated.
#[verifier::external_body]
fn json_str_member(json: &[u8], key: &str) -> (r: Result<Option<String>, String>)
    ensures
        match r {
            Ok(m) => json_string_member(json@, key@) == Some(opt_chars(m)),
            Err(_) => json_string_member(json@, key@) is None,
        },
{
    match serde_json::from_slice::<serde_json::Value>(json) {
        Ok(v) => Ok(v.get(key).and_then(serde_json::Value::as_str).map(str::to_string)),
        Err(e) => Err(e.to_string()),
    }
}

/// The second `.`-separated part of a token, when there is one.
pub open spec fn jwt_payload_spec(token: Seq<char>) -> Option<Seq<char>> {
    let parts = split_on(token, '.');
    if parts.len() > 1 {
        Some(parts[1])
    } else {
        None
    }
}

/// The number of `=` that bring a length to a multiple of four.
pub open spec fn padding_len(n: nat) -> nat {
    if n % 4 == 0 {
        0
    } else {
        (4 - n % 4) as nat
    }
}

/// `b` followed by `=` up to a multiple of four bytes.
pub open spec fn padded(b: Seq<u8>) -> Seq<u8> {
    b + Seq::new(padding_len(b.len()), |i: int| 61u8)
}

/// The address in the token, or `None` when it cannot be read: the payload
/// part, padded, Base64-decoded, parsed as JSON; its `email` string member,
/// normalised, or empty when there is none.
pub open spec fn id_token_email_spec(token: Seq<char>) -> Option<Seq<char>> {
    match jwt_payload_spec(token) {
        None => None,
        Some(p) => match base64_url_safe_decode(padded(vstd::utf8::encode_utf8(p))) {
            None => None,
            Some(bytes) => match json_string_member(bytes, "email"@) {
                None => None,
                Some(m) => Some(
                    match m {
                        Some(e) => normalize_email_spec(e),
                        None => Seq::empty(),
                    },
                ),
            },
        },
    }
}

/// The message of a failure to read the token's address: a malformed token,
/// a failed decoding, or a failed JSON parse.
pub open spec fn id_token_error_spec(token: Seq<char>, message: Seq<char>) -> bool {
    match jwt_payload_spec(token) {
        None => message == "id_token 格式不合法"@,
        Some(p) => match base64_url_safe_decode(padded(vstd::utf8::encode_utf8(p))) {
            None => starts_with(message, "JWT payload 解码失败: "@),
            Some(_) => starts_with(message, "JSON error: "@),
        },
    }
}

proof fn lemma_prefix_starts(a: Seq<char>, b: Seq<char>)
    ensures
        starts_with(a + b, a),
{
    assert((a + b).take(a.len() as int) =~= a);
}

/// The decoded JSON of a token payload: the payload's UTF-8 bytes padded
/// with `=` to a multiple of four, then Base64-decoded.
fn decode_jwt_payload(payload: &[char]) -> (r: Result<Vec<u8>, AppError>)
    ensures
        match r {
            Ok(v) => base64_url_safe_decode(padded(vstd::utf8::encode_utf8(payload@))) == Some(v@),
            Err(e) => base64_url_safe_decode(padded(vstd::utf8::encode_utf8(payload@))) is None
                && starts_with(e.message(), "JWT payload 解码失败: "@),
        },
{
    let s = string_of(payload);
    let b = s.as_str().as_bytes();
    let ghost bytes = b@;
    assert(bytes == vstd::utf8::encode_utf8(payload@));
    let mut v: Vec<u8> = Vec::new();
    let mut i: usize = 0;
    while i < b.len()
        invariant
            i <= b@.len(),
            v@ == b@.take(i as int),
        decreases b@.len() - i,
    {
        v.push(b[i]);
        i = i + 1;
        assert(v@ =~= b@.take(i as int));
    }
    assert(b@.take(i as int) =~= b@);
    let n = v.len();
    let pad = if n % 4 == 0 {
        0
    } else {
        4 - n % 4
    };
    let mut k: usize = 0;
    while k < pad
        invariant
            pad == padding_len(n as nat),
            k <= pad,
            v@ == bytes + Seq::new(k as nat, |j: int| 61u8),
        decreases pad - k,
    {
        v.push(61u8);
        k = k + 1;
        assert(v@ =~= bytes + Seq::new(k as nat, |j: int| 61u8));
    }
    assert(v@ =~= padded(bytes));
    match decode_base64_url_safe(v.as_slice()) {
        Ok(d) => Ok(d),
        Err(e) => {
            let head = chars_of("JWT payload 解码失败: ");
            let m = concat(head.as_slice(), chars_of(e.as_str()).as_slice());
            proof {
                lemma_prefix_starts(head@, e@);
            }
            Err(AppError::new(string_of(m.as_slice())))
        },
    }
}

/// Reads the normalised e-mail address out of an `id_token`; the address is
/// empty when the payload has no `email` string.
pub fn extract_email_from_id_token(id_token: &str) -> (r: Result<String, AppError>)
    ensures
        match r {
            Ok(e) => id_token_email_spec(id_token@) == Some(e@),
            Err(err) => id_token_email_spec(id_token@) is None && id_token_error_spec(
                id_token@,
                err.message(),
            ),
        },
{
    let chars = chars_of(id_token);
    let parts = split_at_char(chars.as_slice(), '.');
    if parts.len() < 2 {
        return Err(AppError::new(owned("id_token 格式不合法")));
    }
    proof {
        lemma_views_index(parts@, 1);
    }
    let bytes = decode_jwt_payload(parts[1].as_slice())?;
    match json_str_member(bytes.as_slice(), "email") {
        Ok(Some(e)) => Ok(normalize_email(e.as_str())),
        Ok(None) => Ok(String::new()),
        Err(msg) => {
            let head = chars_of("JSON error: ");
            let m = concat(head.as_slice(), chars_of(msg.as_str()).as_slice());
            proof {
                lemma_prefix_starts(head@, msg@);
            }
            Err(AppError::new(string_of(m.as_slice())))
        },
    }
}

} // verus!
