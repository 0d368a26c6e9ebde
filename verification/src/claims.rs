//! The token payload: the identity and permission set a token carries, and
//! its byte encoding. Parsing inverts encoding, which is what makes a token
//! round-trip exact.

use vstd::bytes::{
    lemma_auto_spec_u64_to_from_le_bytes, spec_u64_from_le_bytes, spec_u64_to_le_bytes,
    u64_from_le_bytes, u64_to_le_bytes,
};
use vstd::prelude::*;
use vstd::slice::{slice_subrange, slice_to_vec};
use vstd::utf8::{decode_utf8, encode_utf8, encode_utf8_decode_utf8, encode_utf8_valid_utf8,
    valid_utf8};

use crate::resolver::str_seq;

verus! {

/// What a token carries: who the holder is and what they may invoke,
/// with the issue and expiry instants (seconds).
#[derive(Debug)]
pub struct Claims {
    pub user_id: i64,
    pub user_name: String,
    pub permissions: Vec<String>,
    pub iat: u64,
    pub exp: u64,
}

/// The mathematical content of a payload.
pub ghost struct ClaimsView {
    pub user_id: i64,
    pub user_name: Seq<char>,
    pub permissions: Seq<Seq<char>>,
    pub iat: u64,
    pub exp: u64,
}

impl View for Claims {
    type V = ClaimsView;

    open spec fn view(&self) -> ClaimsView {
        ClaimsView {
            user_id: self.user_id,
            user_name: self.user_name@,
            permissions: str_seq(self.permissions@),
            iat: self.iat,
            exp: self.exp,
        }
    }
}

/// An integer field: eight little-endian bytes.
pub open spec fn enc_u64(x: u64) -> Seq<u8> {
    spec_u64_to_le_bytes(x)
}

/// A string field: the byte length, then the UTF-8 bytes.
pub open spec fn enc_str(s: Seq<char>) -> Seq<u8> {
    enc_u64(encode_utf8(s).len() as u64) + encode_utf8(s)
}

/// A list of string fields, in order.
pub open spec fn enc_str_list(ps: Seq<Seq<char>>) -> Seq<u8>
    decreases ps.len(),
{
    if ps.len() == 0 {
        Seq::empty()
    } else {
        enc_str(ps[0]) + enc_str_list(ps.drop_first())
    }
}

/// The payload bytes of a set of claims.
pub open spec fn enc_claims(c: ClaimsView) -> Seq<u8> {
    enc_u64(c.user_id as u64) + enc_u64(c.iat) + enc_u64(c.exp) + enc_str(c.user_name) + enc_u64(
        c.permissions.len() as u64,
    ) + enc_str_list(c.permissions)
}

/// Every length of the claims fits the length fields. Every value built
/// from executable strings and vectors satisfies this.
pub open spec fn wf_claims(c: ClaimsView) -> bool {
    &&& encode_utf8(c.user_name).len() < 0x1_0000_0000_0000_0000
    &&& c.permissions.len() < 0x1_0000_0000_0000_0000
    &&& forall|i: int|
        0 <= i < c.permissions.len() ==> encode_utf8(#[trigger] c.permissions[i]).len()
            < 0x1_0000_0000_0000_0000
}

/// Reads an integer field; the remainder follows it.
pub open spec fn parse_u64(s: Seq<u8>) -> Option<(u64, Seq<u8>)> {
    if s.len() < 8 {
        None
    } else {
        Some((spec_u64_from_le_bytes(s.take(8)), s.skip(8)))
    }
}

/// Reads a string field.
pub open spec fn parse_str(s: Seq<u8>) -> Option<(Seq<char>, Seq<u8>)> {
    match parse_u64(s) {
        None => None,
        Some((n, rest)) => if rest.len() < n {
            None
        } else if !valid_utf8(rest.take(n as int)) {
            None
        } else {
            Some((decode_utf8(rest.take(n as int)), rest.skip(n as int)))
        },
    }
}

/// Reads `count` string fields.
pub open spec fn parse_str_list(s: Seq<u8>, count: nat) -> Option<(Seq<Seq<char>>, Seq<u8>)>
    decreases count,
{
    if count == 0 {
        Some((Seq::empty(), s))
    } else {
        match parse_str(s) {
            None => None,
            Some((v, rest)) => match parse_str_list(rest, (count - 1) as nat) {
                None => None,
                Some((vs, rest2)) => Some((seq![v] + vs, rest2)),
            },
        }
    }
}

/// Reads a whole payload: defined exactly on the encodings of claims, with
/// nothing left over.
pub open spec fn parse_claims(s: Seq<u8>) -> Option<ClaimsView> {
    match parse_u64(s) {
        None => None,
        Some((uid, r1)) => match parse_u64(r1) {
            None => None,
            Some((iat, r2)) => match parse_u64(r2) {
                None => None,
                Some((exp, r3)) => match parse_str(r3) {
                    None => None,
                    Some((name, r4)) => match parse_u64(r4) {
                        None => None,
                        Some((cnt, r5)) => match parse_str_list(r5, cnt as nat) {
                            None => None,
                            Some((ps, r6)) => if r6.len() == 0 {
                                Some(
                                    ClaimsView {
                                        user_id: uid as i64,
                                        user_name: name,
                                        permissions: ps,
                                        iat,
                                        exp,
                                    },
                                )
                            } else {
                                None
                            },
                        },
                    },
                },
            },
        },
    }
}

/// Reading an integer field after its encoding gives the integer back.
pub proof fn lemma_parse_u64_enc(x: u64, rest: Seq<u8>)
    ensures
        parse_u64(enc_u64(x) + rest) == Some((x, rest)),
{
    lemma_auto_spec_u64_to_from_le_bytes();
    assert((enc_u64(x) + rest).take(8) =~= enc_u64(x));
    assert((enc_u64(x) + rest).skip(8) =~= rest);
}

/// Reading a string field after its encoding gives the string back.
pub proof fn lemma_parse_str_enc(sv: Seq<char>, rest: Seq<u8>)
    requires
        encode_utf8(sv).len() < 0x1_0000_0000_0000_0000,
    ensures
        parse_str(enc_str(sv) + rest) == Some((sv, rest)),
{
    let bytes = encode_utf8(sv);
    lemma_parse_u64_enc(bytes.len() as u64, bytes + rest);
    assert(enc_str(sv) + rest =~= enc_u64(bytes.len() as u64) + (bytes + rest));
    assert((bytes + rest).take(bytes.len() as int) =~= bytes);
    assert((bytes + rest).skip(bytes.len() as int) =~= rest);
    encode_utf8_valid_utf8(sv);
    encode_utf8_decode_utf8(sv);
}

/// Reading a list of string fields after its encoding gives the list back.
pub proof fn lemma_parse_str_list_enc(ps: Seq<Seq<char>>, rest: Seq<u8>)
    requires
        forall|i: int|
            0 <= i < ps.len() ==> encode_utf8(#[trigger] ps[i]).len() < 0x1_0000_0000_0000_0000,
    ensures
        parse_str_list(enc_str_list(ps) + rest, ps.len()) == Some((ps, rest)),
    decreases ps.len(),
{
    if ps.len() == 0 {
        assert(enc_str_list(ps) + rest =~= rest);
    } else {
        let tail = ps.drop_first();
        assert(enc_str_list(ps) + rest =~= enc_str(ps[0]) + (enc_str_list(tail) + rest));
        lemma_parse_str_enc(ps[0], enc_str_list(tail) + rest);
        assert forall|i: int|
            0 <= i < tail.len() implies encode_utf8(#[trigger] tail[i]).len()
            < 0x1_0000_0000_0000_0000 by {
            assert(tail[i] == ps[i + 1]);
        }
        lemma_parse_str_list_enc(tail, rest);
        assert(seq![ps[0]] + tail =~= ps);
    }
}

/// Parsing inverts encoding: a payload reproduces its claims exactly.
pub proof fn lemma_claims_round_trip(c: ClaimsView)
    requires
        wf_claims(c),
    ensures
        parse_claims(enc_claims(c)) == Some(c),
{
    let s = enc_claims(c);
    let t1 = enc_u64(c.iat) + enc_u64(c.exp) + enc_str(c.user_name) + enc_u64(
        c.permissions.len() as u64,
    ) + enc_str_list(c.permissions);
    assert(s =~= enc_u64(c.user_id as u64) + t1);
    lemma_parse_u64_enc(c.user_id as u64, t1);
    let t2 = enc_u64(c.exp) + enc_str(c.user_name) + enc_u64(c.permissions.len() as u64)
        + enc_str_list(c.permissions);
    assert(t1 =~= enc_u64(c.iat) + t2);
    lemma_parse_u64_enc(c.iat, t2);
    let t3 = enc_str(c.user_name) + enc_u64(c.permissions.len() as u64) + enc_str_list(
        c.permissions,
    );
    assert(t2 =~= enc_u64(c.exp) + t3);
    lemma_parse_u64_enc(c.exp, t3);
    let t4 = enc_u64(c.permissions.len() as u64) + enc_str_list(c.permissions);
    assert(t3 =~= enc_str(c.user_name) + t4);
    lemma_parse_str_enc(c.user_name, t4);
    let t5 = enc_str_list(c.permissions);
    assert(t4 =~= enc_u64(c.permissions.len() as u64) + t5);
    lemma_parse_u64_enc(c.permissions.len() as u64, t5);
    assert(t5 =~= enc_str_list(c.permissions) + Seq::<u8>::empty());
    lemma_parse_str_list_enc(c.permissions, Seq::<u8>::empty());
    let uid = c.user_id;
    assert((uid as u64) as i64 == uid) by (bit_vector);
}

/// Relies on std's `String::from_utf8`: it succeeds exactly on valid UTF-8
/// and returns the string those bytes encode.
#[verifier::external_body]
pub(crate) fn string_from_utf8(v: Vec<u8>) -> (r: Option<String>)
    ensures
        r is Some <==> valid_utf8(v@),
        r is Some ==> encode_utf8(r.unwrap()@) == v@,
{
    String::from_utf8(v).ok()
}

/// Appends a string field.
fn append_str(r: &mut Vec<u8>, s: &String)
    ensures
        final(r)@ == old(r)@ + enc_str(s@),
{
    let mut bytes = s.as_str().as_bytes_vec();
    let mut lenb = u64_to_le_bytes(bytes.len() as u64);
    let ghost r0 = r@;
    r.append(&mut lenb);
    r.append(&mut bytes);
    proof {
        assert(r@ =~= r0 + enc_str(s@));
    }
}

/// The payload bytes of the claims.
pub fn encode_claims(c: &Claims) -> (r: Vec<u8>)
    ensures
        r@ == enc_claims(c@),
{
    let mut r: Vec<u8> = Vec::new();
    let mut b = u64_to_le_bytes(c.user_id as u64);
    r.append(&mut b);
    let mut b = u64_to_le_bytes(c.iat);
    r.append(&mut b);
    let mut b = u64_to_le_bytes(c.exp);
    r.append(&mut b);
    append_str(&mut r, &c.user_name);
    let mut b = u64_to_le_bytes(c.permissions.len() as u64);
    r.append(&mut b);
    let ghost views = str_seq(c.permissions@);
    proof {
        assert(views.skip(0) =~= views);
        assert(r@ + enc_str_list(views) =~= enc_claims(c@));
    }
    let mut k: usize = 0;
    while k < c.permissions.len()
        invariant
            k <= c.permissions@.len(),
            views == str_seq(c.permissions@),
            r@ + enc_str_list(views.skip(k as int)) == enc_claims(c@),
        decreases c.permissions@.len() - k,
    {
        let ghost r0 = r@;
        append_str(&mut r, &c.permissions[k]);
        proof {
            let tail = views.skip(k as int);
            assert(tail[0] == views[k as int]);
            assert(views[k as int] == c.permissions@[k as int]@);
            assert(tail.drop_first() =~= views.skip(k as int + 1));
            assert(r@ + enc_str_list(views.skip(k as int + 1)) =~= r0 + enc_str_list(tail));
        }
        k += 1;
    }
    proof {
        assert(enc_str_list(views.skip(views.len() as int)) =~= Seq::<u8>::empty());
        assert(r@ + Seq::<u8>::empty() =~= r@);
    }
    r
}

/// Reads an integer field at `pos`.
fn read_u64(b: &Vec<u8>, pos: usize) -> (r: Option<(u64, usize)>)
    requires
        pos <= b@.len(),
    ensures
        match r {
            Some(p) => parse_u64(b@.skip(pos as int)) == Some((p.0, b@.skip(p.1 as int))) && pos
                < p.1 <= b@.len(),
            None => parse_u64(b@.skip(pos as int)) is None,
        },
{
    if b.len() - pos < 8 {
        None
    } else {
        let x = u64_from_le_bytes(slice_subrange(b.as_slice(), pos, pos + 8));
        proof {
            lemma_auto_spec_u64_to_from_le_bytes();
            assert(b@.skip(pos as int).take(8) =~= b@.subrange(pos as int, pos as int + 8));
            assert(b@.skip(pos as int).skip(8) =~= b@.skip(pos as int + 8));
        }
        Some((x, pos + 8))
    }
}

/// Reads a string field at `pos`.
fn read_str(b: &Vec<u8>, pos: usize) -> (r: Option<(String, usize)>)
    requires
        pos <= b@.len(),
    ensures
        match r {
            Some(p) => parse_str(b@.skip(pos as int)) == Some((p.0@, b@.skip(p.1 as int))) && pos
                <= p.1 <= b@.len(),
            None => parse_str(b@.skip(pos as int)) is None,
        },
{
    match read_u64(b, pos) {
        None => None,
        Some((n64, p1)) => {
            if n64 > (b.len() - p1) as u64 {
                return None;
            }
            let n = n64 as usize;
            let bytes = slice_to_vec(slice_subrange(b.as_slice(), p1, p1 + n));
            proof {
                assert(b@.skip(p1 as int).take(n as int) =~= b@.subrange(
                    p1 as int,
                    p1 as int + n,
                ));
                assert(b@.skip(p1 as int).skip(n as int) =~= b@.skip(p1 as int + n));
            }
            match string_from_utf8(bytes) {
                None => None,
                Some(s) => {
                    proof {
                        encode_utf8_decode_utf8(s@);
                    }
                    Some((s, p1 + n))
                },
            }
        },
    }
}

/// Parses a whole payload; refuses anything that is not the encoding of a
/// set of claims.
pub fn parse_claims_bytes(b: &Vec<u8>) -> (r: Option<Claims>)
    ensures
        match r {
            Some(c) => parse_claims(b@) == Some(c@),
            None => parse_claims(b@) is None,
        },
{
    proof {
        assert(b@.skip(0) =~= b@);
    }
    let (uid, p1) = match read_u64(b, 0) {
        Some(p) => p,
        None => {
            return None;
        },
    };
    let (iat, p2) = match read_u64(b, p1) {
        Some(p) => p,
        None => {
            return None;
        },
    };
    let (exp, p3) = match read_u64(b, p2) {
        Some(p) => p,
        None => {
            return None;
        },
    };
    let (name, p4) = match read_str(b, p3) {
        Some(p) => p,
        None => {
            return None;
        },
    };
    let (cnt, p5) = match read_u64(b, p4) {
        Some(p) => p,
        None => {
            return None;
        },
    };
    let mut perms: Vec<String> = Vec::new();
    let mut pos: usize = p5;
    let mut done: u64 = 0;
    proof {
        assert(str_seq(perms@) =~= Seq::<Seq<char>>::empty());
        if parse_str_list(b@.skip(p5 as int), cnt as nat) is Some {
            let q = parse_str_list(b@.skip(p5 as int), cnt as nat).unwrap();
            assert(str_seq(perms@) + q.0 =~= q.0);
        }
    }
    while done < cnt
        invariant
            pos <= b@.len(),
            done <= cnt,
            parse_u64(b@) == Some((uid, b@.skip(p1 as int))),
            parse_u64(b@.skip(p1 as int)) == Some((iat, b@.skip(p2 as int))),
            parse_u64(b@.skip(p2 as int)) == Some((exp, b@.skip(p3 as int))),
            parse_str(b@.skip(p3 as int)) == Some((name@, b@.skip(p4 as int))),
            parse_u64(b@.skip(p4 as int)) == Some((cnt, b@.skip(p5 as int))),
            parse_str_list(b@.skip(p5 as int), cnt as nat) == match parse_str_list(
                b@.skip(pos as int),
                (cnt - done) as nat,
            ) {
                Some(q) => Some((str_seq(perms@) + q.0, q.1)),
                None => None::<(Seq<Seq<char>>, Seq<u8>)>,
            },
        decreases cnt - done,
    {
        let ghost perms_old = perms@;
        let (v, p2) = match read_str(b, pos) {
            Some(p) => p,
            None => {
                return None;
            },
        };
        perms.push(v);
        proof {
            assert(str_seq(perms@) =~= str_seq(perms_old).push(perms@[perms@.len() - 1]@));
            if parse_str_list(b@.skip(p2 as int), (cnt - done - 1) as nat) is Some {
                let q = parse_str_list(b@.skip(p2 as int), (cnt - done - 1) as nat).unwrap();
                assert(str_seq(perms@) + q.0 =~= str_seq(perms_old) + (seq![
                    perms@[perms@.len() - 1]@,
                ] + q.0));
            }
        }
        pos = p2;
        done += 1;
    }
    if pos != b.len() {
        proof {
            assert(b@.skip(pos as int).len() != 0);
        }
        return None;
    }
    proof {
        assert(b@.skip(pos as int).len() == 0);
        let q = parse_str_list(b@.skip(p5 as int), cnt as nat).unwrap();
        assert(str_seq(perms@) + Seq::<Seq<char>>::empty() =~= str_seq(perms@));
    }
    Some(
        Claims {
            user_id: uid as i64,
            user_name: name,
            permissions: perms,
            iat,
            exp,
        },
    )
}

} // verus!
