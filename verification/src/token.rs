//! The token service: issuing and verifying the compact signed tokens that
//! bind an identity to its resolved permission set. A token is three
//! unpadded base64url segments — header, payload, signature — joined by
//! dots; the signature is an HMAC-SHA-256 tag over the first two segments.

use vstd::prelude::*;
use vstd::slice::{slice_subrange, slice_to_vec};
use vstd::utf8::{encode_utf8, is_leading_byte_width_1, partial_valid_utf8,
    partial_valid_utf8_extend_ascii_block, valid_utf8};

use crate::b64::{b64_decode, b64_decode_bytes, b64_encode, b64_encode_bytes,
    lemma_b64_encode_ascii, lemma_b64_round_trip};
use crate::claims::{enc_claims, lemma_claims_round_trip, parse_claims, parse_claims_bytes,
    string_from_utf8, wf_claims, Claims, ClaimsView};
use crate::errors::TokenError;
use crate::resolver::str_seq;

verus! {

/// How long an issued token stays valid, in seconds.
pub const TOKEN_VALIDITY_SECS: u64 = 7200;

/// The fixed header segment content, before encoding.
pub open spec fn header_chars() -> Seq<char> {
    "{\"alg\":\"HS256\",\"typ\":\"JWT\"}"@
}

pub open spec fn header_utf8() -> Seq<u8> {
    encode_utf8(header_chars())
}

/// What an HMAC-SHA-256 tag is: a function of key and message alone. The
/// engine states nothing else of it; the hmac and sha2 crates compute it.
pub uninterp spec fn mac_of(key: Seq<u8>, msg: Seq<u8>) -> Seq<u8>;

/// Relies on the hmac and sha2 crates: `Hmac::<Sha256>` accepts a key of
/// any length (`new_from_slice` derives the padded key itself and never
/// fails), and its tag depends on the key and message alone and is 32
/// bytes long.
#[verifier::external_body]
fn hmac_sha256(key: &Vec<u8>, msg: &Vec<u8>) -> (r: Vec<u8>)
    ensures
        r@ == mac_of(key@, msg@),
        r@.len() == 32,
{
    let mut m = <hmac::Hmac<sha2::Sha256> as hmac::Mac>::new_from_slice(key.as_slice()).unwrap();
    hmac::Mac::update(&mut m, msg.as_slice());
    hmac::Mac::finalize(m).into_bytes().to_vec()
}

/// The claims issued at `now`.
pub open spec fn issued_claims(
    user_id: i64,
    name: Seq<char>,
    perms: Seq<Seq<char>>,
    now: u64,
) -> ClaimsView {
    ClaimsView {
        user_id,
        user_name: name,
        permissions: perms,
        iat: now,
        exp: (now + TOKEN_VALIDITY_SECS) as u64,
    }
}

/// The bytes of the token that carries the given claims under the given
/// secret.
pub open spec fn token_bytes(secret: Seq<char>, c: ClaimsView) -> Seq<u8> {
    let h = b64_encode(header_utf8());
    let p = b64_encode(enc_claims(c));
    h + seq![46u8] + p + seq![46u8] + b64_encode(
        mac_of(encode_utf8(secret), h + seq![46u8] + p),
    )
}

/// The first position at or after `from` holding the segment separator `.`,
/// or the end.
pub open spec fn find_dot(s: Seq<u8>, from: int) -> int
    decreases s.len() - from when 0 <= from <= s.len()
{
    if from >= s.len() || s[from] == 46 {
        from
    } else {
        find_dot(s, from + 1)
    }
}

/// The three segments of a token: defined exactly when the bytes hold two
/// separators and no third.
pub open spec fn split3(t: Seq<u8>) -> Option<(Seq<u8>, Seq<u8>, Seq<u8>)> {
    let d1 = find_dot(t, 0);
    let d2 = find_dot(t, d1 + 1);
    let d3 = find_dot(t, d2 + 1);
    if d1 < t.len() && d2 < t.len() && d3 == t.len() {
        Some((t.take(d1), t.subrange(d1 + 1, d2), t.skip(d2 + 1)))
    } else {
        None
    }
}

/// The claims a token's payload carries: defined exactly when the token is
/// three well-formed segments, the header is the expected one, the payload
/// decodes and parses, and the signature segment decodes.
pub open spec fn token_payload_of(t: Seq<u8>) -> Option<ClaimsView> {
    match split3(t) {
        None => None,
        Some((h, p, sg)) => if h != b64_encode(header_utf8()) {
            None
        } else {
            match b64_decode(p) {
                None => None,
                Some(pb) => match parse_claims(pb) {
                    None => None,
                    Some(c) => match b64_decode(sg) {
                        None => None,
                        Some(_) => Some(c),
                    },
                },
            }
        },
    }
}

/// The token's signature segment decodes to the tag of its first two
/// segments under the given secret.
pub open spec fn token_sig_ok(secret: Seq<char>, t: Seq<u8>) -> bool {
    match split3(t) {
        None => false,
        Some((h, p, sg)) => b64_decode(sg) == Some(
            mac_of(encode_utf8(secret), h + seq![46u8] + p),
        ),
    }
}

/// Field-by-field copies of the strings of `v`.
fn clone_strings(v: &Vec<String>) -> (r: Vec<String>)
    ensures
        r@ == v@,
{
    let mut r: Vec<String> = Vec::new();
    let mut k: usize = 0;
    while k < v.len()
        invariant
            k <= v@.len(),
            r@ == v@.take(k as int),
        decreases v@.len() - k,
    {
        r.push(v[k].clone());
        proof {
            assert(r@ =~= v@.take(k as int + 1));
        }
        k += 1;
    }
    proof {
        assert(v@.take(v@.len() as int) =~= v@);
    }
    r
}

/// Whether two byte vectors hold the same bytes.
fn bytes_eq(a: &Vec<u8>, b: &Vec<u8>) -> (r: bool)
    ensures
        r == (a@ == b@),
{
    if a.len() != b.len() {
        return false;
    }
    let mut k: usize = 0;
    while k < a.len()
        invariant
            k <= a@.len(),
            a@.len() == b@.len(),
            forall|i: int| 0 <= i < k ==> a@[i] == b@[i],
        decreases a@.len() - k,
    {
        if a[k] != b[k] {
            return false;
        }
        k += 1;
    }
    proof {
        assert(a@ =~= b@);
    }
    true
}

/// A sequence of bytes below 128 is valid UTF-8.
proof fn lemma_ascii_valid_utf8(bytes: Seq<u8>)
    requires
        forall|i: int| 0 <= i < bytes.len() ==> bytes[i] < 128,
    ensures
        valid_utf8(bytes),
{
    assert(bytes.subrange(0, 0) =~= Seq::<u8>::empty());
    assert(partial_valid_utf8(bytes, 0));
    assert forall|i: int|
        0 <= 0 <= i < bytes.len() <= bytes.len() implies #[trigger] is_leading_byte_width_1(
        bytes[i],
    ) by {}
    partial_valid_utf8_extend_ascii_block(bytes, 0, bytes.len() as int);
    assert(bytes.subrange(0, bytes.len() as int) =~= bytes);
}

/// Scans to the next segment separator.
fn scan_dot(s: &Vec<u8>, from: usize) -> (r: usize)
    requires
        from <= s@.len(),
    ensures
        from <= r <= s@.len(),
        r as int == find_dot(s@, from as int),
        r < s@.len() ==> s@[r as int] == 46,
{
    let mut cur: usize = from;
    while cur < s.len() && s[cur] != 46
        invariant
            from <= cur <= s@.len(),
            find_dot(s@, from as int) == find_dot(s@, cur as int),
        decreases s@.len() - cur,
    {
        cur += 1;
    }
    cur
}

/// `find_dot` lands on `d` when everything before `d` is dot-free and `d`
/// holds a dot or ends the sequence.
proof fn lemma_find_dot_is(t: Seq<u8>, from: int, d: int)
    requires
        0 <= from <= d <= t.len(),
        forall|i: int| from <= i < d ==> t[i] != 46,
        d == t.len() || t[d] == 46,
    ensures
        find_dot(t, from) == d,
    decreases d - from,
{
    if from < d {
        lemma_find_dot_is(t, from + 1, d);
    }
}

/// The segments of a freshly assembled token are recovered exactly.
proof fn lemma_split3_of_token(h: Seq<u8>, p: Seq<u8>, sg: Seq<u8>)
    requires
        forall|i: int| 0 <= i < h.len() ==> h[i] != 46,
        forall|i: int| 0 <= i < p.len() ==> p[i] != 46,
        forall|i: int| 0 <= i < sg.len() ==> sg[i] != 46,
    ensures
        split3(h + seq![46u8] + p + seq![46u8] + sg) == Some((h, p, sg)),
{
    let t = h + seq![46u8] + p + seq![46u8] + sg;
    let d1 = h.len() as int;
    let d2 = h.len() + 1 + p.len() as int;
    assert(t.len() == h.len() + 1 + p.len() + 1 + sg.len());
    assert forall|i: int| 0 <= i < d1 implies t[i] != 46 by {
        assert(t[i] == h[i]);
    }
    assert(t[d1] == 46);
    lemma_find_dot_is(t, 0, d1);
    assert forall|i: int| d1 + 1 <= i < d2 implies t[i] != 46 by {
        assert(t[i] == p[i - d1 - 1]);
    }
    assert(t[d2] == 46);
    lemma_find_dot_is(t, d1 + 1, d2);
    assert forall|i: int| d2 + 1 <= i < t.len() implies t[i] != 46 by {
        assert(t[i] == sg[i - d2 - 1]);
    }
    lemma_find_dot_is(t, d2 + 1, t.len() as int);
    assert(t.take(d1) =~= h);
    assert(t.subrange(d1 + 1, d2) =~= p);
    assert(t.skip(d2 + 1) =~= sg);
}

/// Issues a token for the given identity and permissions at the instant
/// `now`: the carried claims are exactly the identity, the permissions, and
/// the validity window starting at `now`.
pub fn issue(
    user_id: i64,
    user_name: &String,
    permissions: &Vec<String>,
    secret: &str,
    now: u64,
) -> (r: String)
    requires
        now <= u64::MAX - TOKEN_VALIDITY_SECS,
    ensures
        encode_utf8(r@) == token_bytes(
            secret@,
            issued_claims(user_id, user_name@, str_seq(permissions@), now),
        ),
{
    let claims = Claims {
        user_id,
        user_name: user_name.clone(),
        permissions: clone_strings(permissions),
        iat: now,
        exp: now + TOKEN_VALIDITY_SECS,
    };
    let payload = crate::claims::encode_claims(&claims);
    let hdr = "{\"alg\":\"HS256\",\"typ\":\"JWT\"}".as_bytes_vec();
    let mut t = b64_encode_bytes(&hdr);
    let mut p64 = b64_encode_bytes(&payload);
    t.push(46);
    t.append(&mut p64);
    let key = secret.as_bytes_vec();
    let mac = hmac_sha256(&key, &t);
    let mut s64 = b64_encode_bytes(&mac);
    let ghost si = t@;
    t.push(46);
    t.append(&mut s64);
    proof {
        let c = issued_claims(user_id, user_name@, str_seq(permissions@), now);
        assert(claims@ == c);
        assert(si =~= b64_encode(header_utf8()) + seq![46u8] + b64_encode(enc_claims(c)));
        assert(t@ =~= token_bytes(secret@, c));
        lemma_b64_encode_ascii(header_utf8());
        lemma_b64_encode_ascii(enc_claims(c));
        lemma_b64_encode_ascii(mac_of(encode_utf8(secret@), si));
        assert forall|i: int| 0 <= i < t@.len() implies t@[i] < 128 by {
            let h64 = b64_encode(header_utf8());
            let pp = b64_encode(enc_claims(c));
            let ss = b64_encode(mac_of(encode_utf8(secret@), si));
            if i < h64.len() {
                assert(t@[i] == h64[i]);
            } else if i == h64.len() {
                assert(t@[i] == 46);
            } else if i < h64.len() + 1 + pp.len() {
                assert(t@[i] == pp[i - h64.len() - 1]);
            } else if i == h64.len() + 1 + pp.len() {
                assert(t@[i] == 46);
            } else {
                assert(t@[i] == ss[i - (h64.len() + 1 + pp.len()) - 1]);
            }
        }
        lemma_ascii_valid_utf8(t@);
    }
    match string_from_utf8(t) {
        Some(s) => s,
        None => {
            proof {
                assert(false);
            }
            String::new()
        },
    }
}

/// Verifies a token: checks its structure, its signature under the secret,
/// and its expiry against `now`, and returns the carried claims. The error
/// states exactly which check failed: structure, then signature, then
/// expiry.
pub fn verify(secret: &str, token: &str, now: u64) -> (r: Result<Claims, TokenError>)
    ensures
        ({
            let tb = encode_utf8(token@);
            match r {
                Ok(c) => token_payload_of(tb) == Some(c@) && token_sig_ok(secret@, tb) && now
                    < c@.exp,
                Err(TokenError::Malformed) => token_payload_of(tb) is None,
                Err(TokenError::InvalidSignature) => token_payload_of(tb) is Some
                    && !token_sig_ok(secret@, tb),
                Err(TokenError::Expired) => token_payload_of(tb) is Some && token_sig_ok(
                    secret@,
                    tb,
                ) && now >= token_payload_of(tb).unwrap().exp,
            }
        }),
{
    let bytes = token.as_bytes_vec();
    let n = bytes.len();
    let d1 = scan_dot(&bytes, 0);
    if d1 == n {
        return Err(TokenError::Malformed);
    }
    let d2 = scan_dot(&bytes, d1 + 1);
    if d2 == n {
        return Err(TokenError::Malformed);
    }
    let d3 = scan_dot(&bytes, d2 + 1);
    if d3 != n {
        proof {
            assert(find_dot(bytes@, d2 as int + 1) != bytes@.len());
        }
        return Err(TokenError::Malformed);
    }
    let h = slice_to_vec(slice_subrange(bytes.as_slice(), 0, d1));
    let p = slice_to_vec(slice_subrange(bytes.as_slice(), d1 + 1, d2));
    let sg = slice_to_vec(slice_subrange(bytes.as_slice(), d2 + 1, n));
    proof {
        assert(bytes@.take(d1 as int) == h@);
        assert(split3(bytes@) == Some((h@, p@, sg@)));
    }
    let hdr = "{\"alg\":\"HS256\",\"typ\":\"JWT\"}".as_bytes_vec();
    let hexp = b64_encode_bytes(&hdr);
    if !bytes_eq(&h, &hexp) {
        return Err(TokenError::Malformed);
    }
    let pb = match b64_decode_bytes(&p) {
        Some(v) => v,
        None => {
            return Err(TokenError::Malformed);
        },
    };
    let claims = match parse_claims_bytes(&pb) {
        Some(c) => c,
        None => {
            return Err(TokenError::Malformed);
        },
    };
    let sig = match b64_decode_bytes(&sg) {
        Some(v) => v,
        None => {
            return Err(TokenError::Malformed);
        },
    };
    let key = secret.as_bytes_vec();
    let si = slice_to_vec(slice_subrange(bytes.as_slice(), 0, d2));
    proof {
        assert(si@ =~= h@ + seq![46u8] + p@);
    }
    let mac = hmac_sha256(&key, &si);
    if !bytes_eq(&sig, &mac) {
        return Err(TokenError::InvalidSignature);
    }
    if now >= claims.exp {
        return Err(TokenError::Expired);
    }
    Ok(claims)
}

/// A token reproduces exactly the claims it was issued with: its payload
/// parses back to them, and its signature checks under the issuing secret.
pub proof fn lemma_token_round_trip(secret: Seq<char>, c: ClaimsView)
    requires
        wf_claims(c),
    ensures
        token_payload_of(token_bytes(secret, c)) == Some(c),
        token_sig_ok(secret, token_bytes(secret, c)),
{
    let h = b64_encode(header_utf8());
    let p = b64_encode(enc_claims(c));
    let m = b64_encode(mac_of(encode_utf8(secret), h + seq![46u8] + p));
    lemma_b64_encode_ascii(header_utf8());
    lemma_b64_encode_ascii(enc_claims(c));
    lemma_b64_encode_ascii(mac_of(encode_utf8(secret), h + seq![46u8] + p));
    lemma_split3_of_token(h, p, m);
    assert(token_bytes(secret, c) == h + seq![46u8] + p + seq![46u8] + m);
    lemma_b64_round_trip(enc_claims(c));
    lemma_claims_round_trip(c);
    lemma_b64_round_trip(mac_of(encode_utf8(secret), h + seq![46u8] + p));
}

/// Tokens issued at different instants differ, whatever else they share:
/// the issue instant is part of the payload, and the payload round-trips.
pub proof fn lemma_distinct_instants_distinct_tokens(
    secret: Seq<char>,
    c1: ClaimsView,
    c2: ClaimsView,
)
    requires
        wf_claims(c1),
        wf_claims(c2),
        c1.iat != c2.iat,
    ensures
        token_bytes(secret, c1) != token_bytes(secret, c2),
{
    if token_bytes(secret, c1) == token_bytes(secret, c2) {
        lemma_token_round_trip(secret, c1);
        lemma_token_round_trip(secret, c2);
    }
}

} // verus!
