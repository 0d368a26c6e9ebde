//! The authentication boundary: extracting the bearer credential from the
//! request header. The header is accepted only when it is exactly the
//! scheme keyword `Bearer` followed by one token value.

use vstd::prelude::*;
use vstd::utf8::encode_utf8;

use crate::claims::Claims;
use crate::errors::{AuthError, TokenError};
use crate::token::{token_payload_of, token_sig_ok, verify};

verus! {

/// Header whitespace: the ASCII separators a header value can carry.
pub open spec fn is_space(c: char) -> bool {
    c == ' ' || c == '\t' || c == '\r' || c == '\n'
}

/// The first position at or after `i` that does not hold whitespace.
pub open spec fn skip_spaces(s: Seq<char>, i: int) -> int
    decreases s.len() - i when 0 <= i <= s.len()
{
    if i >= s.len() || !is_space(s[i]) {
        i
    } else {
        skip_spaces(s, i + 1)
    }
}

/// The first position at or after `i` that holds whitespace, or the end.
pub open spec fn end_word(s: Seq<char>, i: int) -> int
    decreases s.len() - i when 0 <= i <= s.len()
{
    if i >= s.len() || is_space(s[i]) {
        i
    } else {
        end_word(s, i + 1)
    }
}

/// The credential carried by a bearer header: defined exactly when the
/// header consists of the word `Bearer` followed by one further word, with
/// nothing after it but whitespace.
pub open spec fn parse_bearer_spec(s: Seq<char>) -> Option<Seq<char>> {
    let w1s = skip_spaces(s, 0);
    let w1e = end_word(s, w1s);
    let w2s = skip_spaces(s, w1e);
    let w2e = end_word(s, w2s);
    let tail = skip_spaces(s, w2e);
    if s.subrange(w1s, w1e) == "Bearer"@ && w2s < w2e && tail == s.len() {
        Some(s.subrange(w2s, w2e))
    } else {
        None
    }
}

/// Whether the character is header whitespace.
fn is_space_char(c: char) -> (r: bool)
    ensures
        r == is_space(c),
{
    c == ' ' || c == '\t' || c == '\r' || c == '\n'
}

/// Scans past whitespace.
fn scan_skip_spaces(s: &str, i: usize, n: usize) -> (r: usize)
    requires
        i <= n,
        n == s@.len(),
    ensures
        i <= r <= n,
        r as int == skip_spaces(s@, i as int),
{
    let mut cur: usize = i;
    while cur < n && is_space_char(s.get_char(cur))
        invariant
            i <= cur <= n,
            n == s@.len(),
            skip_spaces(s@, i as int) == skip_spaces(s@, cur as int),
        decreases n - cur,
    {
        cur += 1;
    }
    cur
}

/// Scans to the end of the current word.
fn scan_end_word(s: &str, i: usize, n: usize) -> (r: usize)
    requires
        i <= n,
        n == s@.len(),
    ensures
        i <= r <= n,
        r as int == end_word(s@, i as int),
{
    let mut cur: usize = i;
    while cur < n && !is_space_char(s.get_char(cur))
        invariant
            i <= cur <= n,
            n == s@.len(),
            end_word(s@, i as int) == end_word(s@, cur as int),
        decreases n - cur,
    {
        cur += 1;
    }
    cur
}

/// Whether the characters of `s` between `start` and `end` are the word `w`.
fn range_matches(s: &str, start: usize, end: usize, w: &str) -> (r: bool)
    requires
        start <= end <= s@.len(),
    ensures
        r == (s@.subrange(start as int, end as int) == w@),
{
    let wn = w.unicode_len();
    if end - start != wn {
        proof {
            assert(s@.subrange(start as int, end as int).len() != w@.len());
        }
        return false;
    }
    let mut j: usize = 0;
    while j < wn
        invariant
            j <= wn,
            wn == w@.len(),
            start + wn == end,
            end <= s@.len(),
            forall|t: int| 0 <= t < j ==> s@[start + t] == w@[t],
        decreases wn - j,
    {
        if s.get_char(start + j) != w.get_char(j) {
            proof {
                assert(s@.subrange(start as int, end as int)[j as int] != w@[j as int]);
            }
            return false;
        }
        j += 1;
    }
    proof {
        assert(s@.subrange(start as int, end as int) =~= w@);
    }
    true
}

/// Extracts the credential from a bearer header value: the scheme keyword
/// `Bearer`, then exactly one token. Anything else is refused, before any
/// verification is attempted.
pub fn parse_bearer(header: &str) -> (r: Option<String>)
    ensures
        match r {
            Some(t) => parse_bearer_spec(header@) == Some(t@),
            None => parse_bearer_spec(header@) is None,
        },
{
    let n = header.unicode_len();
    let w1s = scan_skip_spaces(header, 0, n);
    let w1e = scan_end_word(header, w1s, n);
    if !range_matches(header, w1s, w1e, "Bearer") {
        return None;
    }
    let w2s = scan_skip_spaces(header, w1e, n);
    let w2e = scan_end_word(header, w2s, n);
    let tail = scan_skip_spaces(header, w2e, n);
    if w2s < w2e && tail == n {
        Some(header.substring_char(w2s, w2e).to_owned())
    } else {
        None
    }
}

/// The boundary check on a protected call: extracts the credential from the
/// bearer header and verifies it. A header that is not exactly the scheme
/// keyword and one token is refused before any verification is attempted;
/// a failing token is refused with its exact verification error.
pub fn authenticate(header: &str, secret: &str, now: u64) -> (r: Result<Claims, AuthError>)
    ensures
        ({
            match parse_bearer_spec(header@) {
                None => r == Err::<Claims, AuthError>(AuthError::MalformedHeader),
                Some(t) => {
                    let tb = encode_utf8(t);
                    match r {
                        Ok(c) => token_payload_of(tb) == Some(c@) && token_sig_ok(secret@, tb)
                            && now < c@.exp,
                        Err(AuthError::MalformedHeader) => false,
                        Err(AuthError::Token(TokenError::Malformed)) => token_payload_of(
                            tb,
                        ) is None,
                        Err(AuthError::Token(TokenError::InvalidSignature)) => token_payload_of(
                            tb,
                        ) is Some && !token_sig_ok(secret@, tb),
                        Err(AuthError::Token(TokenError::Expired)) => token_payload_of(
                            tb,
                        ) is Some && token_sig_ok(secret@, tb) && now >= token_payload_of(
                            tb,
                        ).unwrap().exp,
                    }
                },
            }
        }),
{
    let token = match parse_bearer(header) {
        Some(t) => t,
        None => {
            return Err(AuthError::MalformedHeader);
        },
    };
    match verify(secret, token.as_str(), now) {
        Ok(c) => Ok(c),
        Err(e) => Err(AuthError::Token(e)),
    }
}

} // verus!
